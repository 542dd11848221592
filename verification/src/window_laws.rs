//! Laws of the window: what the settings come to, and how a run and its log go on.

use vstd::arithmetic::power2::*;
use vstd::prelude::*;

use crate::app;
use crate::app::{
    AudioBatchApp, LogLine, RunModel, Section, Settings, Tone, MAX_LOG_LINES, MAX_LOG_LINE_CHARS,
};
use crate::exact;
use crate::fixed;
use crate::pipeline;
use crate::single;
use crate::single::Single;
use crate::text;
use crate::text_laws;
use crate::types::{
    AppMsg, OutputFormat, ProcessingOptions, ReductionProfile, SilencePad, SilenceThreshold,
};
use crate::ui;

verus! {

// ---------------------------------------------------------------------------
// Settings
// ---------------------------------------------------------------------------

/// Every setting of the window reaches the processing as it was set. The loudness target does where
/// normalization is switched on, and where it is off there is none.
pub proof fn every_setting_reaches_the_processing(a: AudioBatchApp)
    ensures
        a.options().automixer == a.automixer,
        a.options().automixer_spectral_gate == a.automixer_spectral_gate,
        a.options().automixer_nn_dereverb == a.automixer_nn_dereverb,
        a.options().automixer_dfn3_dereverb == a.automixer_dfn3_dereverb,
        a.options().automixer_dfn3_mix == a.automixer_dfn3_mix,
        a.options().automixer_dfn3_postfilter == a.automixer_dfn3_postfilter,
        a.options().automixer_expander == a.automixer_expander,
        a.options().automixer_expander_safety_pct == a.automixer_expander_safety_pct,
        a.options().automixer_expander_reduction_profile == a.automixer_expander_reduction_profile,
        a.options().trim_silence == a.trim_silence,
        a.options().trim_silence_threshold == SilenceThreshold::Recommended,
        a.options().trim_silence_pad == SilencePad::Tight,
        a.options().output_format == a.output_format,
        a.options().bitrate_kbps == a.bitrate_kbps,
        a.options().target_peak_dbfs == a.target_peak_dbfs,
        a.normalize_volume ==> a.options().target_lufs == Some(a.target_lufs),
        !a.normalize_volume ==> a.options().target_lufs is None,
{
}

/// The number of stages that is shown is the number of stages that run, apart from the estimate
/// that the expander needs.
pub proof fn the_stages_that_are_shown_are_those_that_run(a: AudioBatchApp)
    ensures
        pipeline::stages(a.options()).len() == a.stage_count() + if a.automixer_expander {
            1int
        } else {
            0int
        },
{
}

/// The choice of a noise reduction that is shown is the stage that runs: the spectral gate, the
/// denoiser, or neither.
pub proof fn the_noise_reduction_that_is_shown_is_the_one_that_runs(a: AudioBatchApp)
    ensures
        a.noise_choice() < 3,
        a.noise_choice() == 1 <==> pipeline::stages(a.options()).contains(
            pipeline::Stage::SpectralGate,
        ),
        a.noise_choice() == 2 <==> pipeline::stages(a.options()).contains(pipeline::Stage::Denoise),
{
    let s: Seq<pipeline::Stage> = pipeline::stages(a.options());
    let n: int = s.len() - 2;
    if a.automixer_spectral_gate {
        assert(s[n] is SpectralGate);
    } else if a.automixer_nn_dereverb {
        assert(s[n] is Denoise);
    }
}

/// What processing starts out with: no normalization, no clean-up, no trim, a peak of -3 dBFS, a mix
/// of 80 and a safety of 50 percent, and 4-bit ADPCM.
pub proof fn what_processing_starts_out_with()
    ensures
        ({
            let o = ProcessingOptions::initial();
            &&& o.target_lufs is None && !o.automixer && !o.trim_silence
            &&& !o.automixer_spectral_gate && !o.automixer_nn_dereverb && !o.automixer_dfn3_dereverb
            &&& !o.automixer_expander && !o.automixer_dfn3_postfilter
            &&& o.target_peak_dbfs == single::whole(-3)
            &&& o.automixer_dfn3_mix == single::whole(80)
            &&& o.automixer_expander_safety_pct == single::whole(50)
            &&& o.automixer_expander_reduction_profile == ReductionProfile::Recommended
            &&& o.trim_silence_threshold == SilenceThreshold::Recommended
            &&& o.trim_silence_pad == SilencePad::Tight
            &&& o.output_format == OutputFormat::AdpcmWav
            &&& o.bitrate_kbps == 128
        }),
{
}

/// Choosing a noise reduction switches on at most that one, and touches no other setting.
pub proof fn choosing_a_noise_reduction_touches_nothing_else(s: Settings, segment: usize)
    ensures
        ({
            let t = app::noise_chosen(s, segment);
            &&& !(t.automixer_spectral_gate && t.automixer_nn_dereverb)
            &&& t.automixer_spectral_gate <==> segment == 1
            &&& t.automixer_nn_dereverb <==> segment == 2
            &&& t.automixer_dfn3_dereverb == s.automixer_dfn3_dereverb
            &&& t.automixer_dfn3_mix == s.automixer_dfn3_mix
            &&& t.automixer_expander == s.automixer_expander
            &&& t.automixer == s.automixer
            &&& t == (Settings {
                automixer_spectral_gate: t.automixer_spectral_gate,
                automixer_nn_dereverb: t.automixer_nn_dereverb,
                ..s
            })
        }),
{
}

/// The window opens with the settings that processing starts out with, nothing under way, and an
/// empty log, or the complaint that FFmpeg was not found.
pub proof fn how_the_window_opens(found: Result<(), String>, a: AudioBatchApp)
    requires
        call_ensures(AudioBatchApp::from_ffmpeg_lookup, (found,), a),
    ensures
        a.options() == ProcessingOptions::initial(),
        a.input_dir@.len() == 0 && a.output_dir@.len() == 0,
        !a.normalize_volume && a.target_lufs == single::whole(-14),
        !a.is_processing && !a.is_analyzing && a.average_lufs is None,
        a.section == Section::Files && !a.followed_run,
        found is Ok <==> a.ffmpeg_error is None,
        found is Ok ==> a.lines().len() == 0 && a.error_count == 0,
        found matches Err(m) ==> a.lines() == seq![app::as_log_line("[ERROR] "@ + m@)]
            && a.error_count == 1,
{
    if let Err(m) = found {
        let line: Seq<char> = app::as_log_line("[ERROR] "@ + m@);
        app::errors_stay_recognizable(m@);
        errors_are_counted_line_by_line(Seq::empty(), line, Seq::empty());
        assert(a.run().logs == a.lines());
    } else {
        assert(a.run().logs == a.lines());
    }
}

/// The summaries: what would stop a run, how many stages run, the target, and the errors before the
/// lines.
pub proof fn what_the_summaries_say(
    a: &AudioBatchApp,
    files: (String, Tone),
    cleanup: (String, Tone),
    loudness: (String, Tone),
    logs: (String, Tone),
)
    requires
        call_ensures(AudioBatchApp::summary_files, (a,), files),
        call_ensures(AudioBatchApp::summary_cleanup, (a,), cleanup),
        call_ensures(AudioBatchApp::summary_loudness, (a,), loudness),
        call_ensures(AudioBatchApp::summary_logs, (a,), logs),
    ensures
        files.1 == Tone::Amber <==> a.input_dir@.len() == 0 || a.output_dir@.len() == 0,
        files.1 != Tone::Amber ==> text::contains(
            files.0@,
            app::format_short_text(a.output_format, a.bitrate_kbps),
        ),
        a.automixer ==> cleanup.0@ == text::decimal(a.stage_count()) + " stages"@,
        !a.automixer ==> cleanup.0@ == "off"@,
        a.normalize_volume ==> loudness.0@ == fixed::fixed(a.target_lufs, 1),
        !a.normalize_volume ==> loudness.0@ == "off"@,
        logs.1 == Tone::Red <==> a.error_count > 0,
        a.error_count > 0 ==> text::contains(logs.0@, text::decimal(a.error_count as nat)),
        a.error_count == 0 && a.logs@.len() > 0 ==> logs.0@ == text::decimal(a.logs@.len()),
        a.error_count == 0 && a.logs@.len() == 0 ==> logs.0@.len() == 0,
{
    let e: Seq<char> = Seq::empty();
    if files.1 != Tone::Amber {
        let f: Seq<char> = app::format_short_text(a.output_format, a.bitrate_kbps);
        let t: Seq<char> = if a.trim_silence {
            " + trim"@
        } else {
            e
        };
        text_laws::lemma_found_between(e, f, t);
        assert(e + f + t =~= files.0@);
    }
    if a.error_count > 0 {
        let d: Seq<char> = text::decimal(a.error_count as nat);
        let t: Seq<char> = if a.error_count == 1 {
            " error"@
        } else {
            " errors"@
        };
        text_laws::lemma_found_between(e, d, t);
        assert(e + d + t =~= logs.0@);
    }
}

/// At the start the progress is shown as 0 percent, at the end as 100 percent.
pub proof fn the_progress_in_percent(a: &AudioBatchApp, r: String)
    requires
        call_ensures(AudioBatchApp::progress_percent, (a,), r),
        0 < a.total_files < 0x100_0000,
        a.current_progress == 0 || a.current_progress == a.total_files,
    ensures
        a.current_progress == 0 ==> r@ == "0%"@,
        a.current_progress == a.total_files ==> r@ == "100%"@,
{
    reveal_strlit("0%");
    reveal_strlit("100%");
    reveal_strlit("%");
    if a.current_progress == a.total_files {
        progress_runs_from_nothing_to_all(*a, *a);
        exact::lemma_whole_magnitude(100);
        exact::lemma_times_one(single::whole(100));
        fixed::lemma_fixed_whole(100);
        assert(text::decimal(1) =~= seq!['1']);
        assert(text::decimal(10) =~= seq!['1', '0']);
        assert(text::decimal(100) =~= seq!['1', '0', '0']);
        assert(r@ =~= "100%"@);
    } else {
        exact::lemma_whole_zero();
        let t: int = a.total_files as int;
        single::lemma_whole_exact(t);
        single::lemma_units_order(0, t);
        assert(0 * pow2(149) == 0);
        single::lemma_zero_magnitude(single::whole(0));
        exact::lemma_whole_magnitude(t);
        exact::lemma_whole_magnitude(100);
        single::lemma_zero_quotient(single::whole(0), single::whole(t));
        let q: Single = a.progress();
        single::lemma_zero_magnitude(q);
        single::lemma_zero_product(q, single::whole(100));
        let p: Single = single::product(q, single::whole(100));
        single::lemma_zero_magnitude(p);
        lemma_not_negative(t);
        lemma_product_not_negative(q);
        assert(p.bits == 0);
        assert(p == single::whole(0));
        fixed::lemma_fixed_whole(0);
        assert(text::decimal(0) =~= seq!['0']);
        assert(r@ =~= "0%"@);
    }
}

proof fn lemma_not_negative(t: int)
    requires
        0 < t < 0x100_0000,
    ensures
        !single::quotient(single::whole(0), single::whole(t)).negative(),
{
    exact::lemma_whole_magnitude(0);
    exact::lemma_whole_magnitude(t);
    single::lemma_zero_magnitude(single::whole(t));
    single::lemma_whole_exact(t);
    single::lemma_units_order(0, t);
    assert(0 * pow2(149) == 0);
    single::lemma_rounded_rounds(
        false,
        single::whole(0).magnitude() * pow2(149),
        single::whole(t).magnitude(),
    );
}

proof fn lemma_product_not_negative(q: Single)
    requires
        q.finite(),
        !q.negative(),
    ensures
        !single::product(q, single::whole(100)).negative(),
{
    exact::lemma_whole_magnitude(100);
    lemma_pow2_pos(149);
    single::lemma_rounded_rounds(
        false,
        q.magnitude() * single::whole(100).magnitude(),
        pow2(149),
    );
}

/// Every module that is switched on is named, the equalizer always.
pub proof fn every_module_that_is_on_is_named(a: AudioBatchApp)
    ensures
        a.automixer_dfn3_dereverb ==> text::contains(a.modules(), "dereverb, "@),
        a.automixer_expander ==> text::contains(a.modules(), "expander, "@),
        a.automixer_spectral_gate ==> text::contains(a.modules(), "spectral gate, "@),
        a.automixer_nn_dereverb ==> text::contains(a.modules(), "nnnoiseless, "@),
        text::contains(a.modules(), "voice EQ"@),
        a.modules().len() == (if a.automixer_dfn3_dereverb {
            10int
        } else {
            0int
        }) + (if a.automixer_expander {
            10int
        } else {
            0int
        }) + (if a.automixer_spectral_gate {
            15int
        } else {
            0int
        }) + (if a.automixer_nn_dereverb {
            13int
        } else {
            0int
        }) + 8,
{
    reveal_strlit("dereverb, ");
    reveal_strlit("expander, ");
    reveal_strlit("spectral gate, ");
    reveal_strlit("nnnoiseless, ");
    reveal_strlit("voice EQ");
    let e: Seq<char> = Seq::empty();
    let p: Seq<char> = if a.automixer_dfn3_dereverb {
        "dereverb, "@
    } else {
        e
    };
    let q: Seq<char> = if a.automixer_expander {
        "expander, "@
    } else {
        e
    };
    let r: Seq<char> = if a.automixer_spectral_gate {
        "spectral gate, "@
    } else {
        e
    };
    let s: Seq<char> = if a.automixer_nn_dereverb {
        "nnnoiseless, "@
    } else {
        e
    };
    let v: Seq<char> = "voice EQ"@;
    let m: Seq<char> = a.modules();
    assert(m =~= p + q + r + s + v);
    text_laws::lemma_found_between(e, p, q + r + s + v);
    assert(e + p + (q + r + s + v) =~= m);
    text_laws::lemma_found_between(p, q, r + s + v);
    assert(p + q + (r + s + v) =~= m);
    text_laws::lemma_found_between(p + q, r, s + v);
    assert(p + q + r + (s + v) =~= m);
    text_laws::lemma_found_between(p + q + r, s, v);
    text_laws::lemma_found_between(p + q + r + s, v, e);
    assert(p + q + r + s + v + e =~= m);
}

/// The recipe names the format first, then the loudness, the trim where there is one, and the
/// clean-up with its modules.
pub proof fn the_recipe_tells_the_settings(a: AudioBatchApp)
    ensures
        ({
            let f = app::format_short_text(a.output_format, a.bitrate_kbps);
            a.recipe_text().take(f.len() as int) == f
        }),
        a.normalize_volume ==> text::contains(
            a.recipe_text(),
            fixed::fixed(a.target_lufs, 1) + " LUFS"@,
        ),
        !a.normalize_volume ==> text::contains(a.recipe_text(), "no normalization"@),
        a.trim_silence ==> text::contains(a.recipe_text(), "trim silence"@),
        a.automixer ==> text::contains(a.recipe_text(), "clean up: "@ + a.modules()),
        !a.automixer ==> text::contains(a.recipe_text(), "no clean-up"@),
{
    let f: Seq<char> = app::format_short_text(a.output_format, a.bitrate_kbps);
    let d: Seq<char> = AudioBatchApp::dot();
    let e: Seq<char> = Seq::empty();
    let n: Seq<char> = if a.normalize_volume {
        fixed::fixed(a.target_lufs, 1) + " LUFS"@
    } else {
        "no normalization"@
    };
    let t: Seq<char> = if a.trim_silence {
        d + "trim silence"@
    } else {
        e
    };
    let c: Seq<char> = if a.automixer {
        "clean up: "@ + a.modules()
    } else {
        "no clean-up"@
    };
    let r: Seq<char> = a.recipe_text();
    assert(r =~= f + d + n + t + d + c);
    assert(r.take(f.len() as int) =~= f);
    text_laws::lemma_found_between(f + d, n, t + d + c);
    assert(f + d + n + (t + d + c) =~= r);
    if a.trim_silence {
        text_laws::lemma_found_between(f + d + n + d, "trim silence"@, d + c);
        assert(f + d + n + d + "trim silence"@ + (d + c) =~= r);
    }
    text_laws::lemma_found_between(f + d + n + t + d, c, e);
    assert(f + d + n + t + d + c + e =~= r);
}

/// A lossy format is named with its bitrate, so that different bitrates read differently; one
/// without loss is named alike at every bitrate.
pub proof fn a_lossy_format_is_named_with_its_bitrate(f: OutputFormat, a: u32, b: u32)
    requires
        a != b,
    ensures
        f == OutputFormat::Mp3 || f == OutputFormat::Ogg ==> app::format_short_text(f, a)
            != app::format_short_text(f, b),
        f != OutputFormat::Mp3 && f != OutputFormat::Ogg ==> app::format_short_text(f, a)
            == app::format_short_text(f, b),
        f == OutputFormat::Mp3 || f == OutputFormat::Ogg ==> text::contains(
            app::format_short_text(f, a),
            text::decimal(a as nat) + "k"@,
        ),
{
    text_laws::different_numbers_are_written_differently(a as nat, b as nat);
    let x: Seq<char> = text::decimal(a as nat);
    let y: Seq<char> = text::decimal(b as nat);
    if f == OutputFormat::Mp3 {
        lemma_inner_text_tells_apart("MP3 "@, x, y, "k"@);
    } else if f == OutputFormat::Ogg {
        lemma_inner_text_tells_apart("OGG "@, x, y, "k"@);
    }
}

/// Texts that are the same but for their middle have the same middle.
proof fn lemma_same_middle(p: Seq<char>, x: Seq<char>, y: Seq<char>, q: Seq<char>)
    requires
        (p + x) + q == (p + y) + q,
    ensures
        x == y,
{
    let s: Seq<char> = (p + x) + q;
    let t: Seq<char> = (p + y) + q;
    assert(s.len() == p.len() + x.len() + q.len());
    assert(t.len() == p.len() + y.len() + q.len());
    assert forall|i: int| 0 <= i < x.len() implies x[i] == y[i] by {
        assert(s[p.len() + i] == (p + x)[p.len() + i]);
        assert(t[p.len() + i] == (p + y)[p.len() + i]);
    }
    assert(x =~= y);
}

/// Texts that differ in the middle differ, and hold what is in the middle.
proof fn lemma_inner_text_tells_apart(p: Seq<char>, x: Seq<char>, y: Seq<char>, q: Seq<char>)
    requires
        x != y,
    ensures
        p + x + q != p + y + q,
        text::contains(p + x + q, x + q),
{
    if (p + x) + q == (p + y) + q {
        lemma_same_middle(p, x, y, q);
    }
    lemma_end_is_found(p, x + q, p + x + q);
}

/// What a text ends with is found in it.
proof fn lemma_end_is_found(p: Seq<char>, e: Seq<char>, s: Seq<char>)
    requires
        s =~= p + e,
    ensures
        text::contains(s, e),
{
    text_laws::lemma_found_between(p, e, Seq::empty());
    assert(p + e + Seq::<char>::empty() =~= s);
}

/// Profiles reduce more from one to the next, and none amplifies; thresholds rise, and pads grow.
pub proof fn choices_are_ladders(i: int, j: int)
    requires
        0 <= i < j < 4,
    ensures
        ReductionProfile::every()[j].whole_db() < ReductionProfile::every()[i].whole_db() < 0,
        SilenceThreshold::every()[i].whole_db() < SilenceThreshold::every()[j].whole_db() < 0,
        0 <= SilencePad::every()[i].quarters() < SilencePad::every()[j].quarters(),
{
}

/// The average of an analysis is taken for the target, rounded to a whole number, halves away from
/// zero; without one the target stays.
pub proof fn the_target_is_the_rounded_average(avg: int, target: Single, x: Single)
    requires
        -0x100_0000 < avg < 0x100_0000,
        x.finite(),
        x.magnitude() < 0x80_0000 * pow2(149),
    ensures
        app::target_from(Some(single::whole(avg)), target) == single::whole(avg),
        app::target_from(None, target) == target,
        ({
            let r = app::target_from(Some(x), target);
            &&& r.finite()
            &&& r.negative() == x.negative()
            &&& 2 * r.magnitude() <= 2 * x.magnitude() + pow2(149)
            &&& 2 * x.magnitude() < 2 * r.magnitude() + pow2(149)
            &&& exists|n: nat| r.magnitude() == #[trigger] (n * pow2(149))
        }),
{
    let u: nat = pow2(149);
    lemma_pow2_pos(149);
    exact::lemma_whole_magnitude(avg);
    let w: Single = single::whole(avg);
    let a: nat = if avg < 0 {
        (-avg) as nat
    } else {
        avg as nat
    };
    exact::lemma_units_close(w);
    let n: nat = single::units_of(w);
    assert(n == a) by (nonlinear_arith)
        requires
            2 * (n * u) <= 2 * (a * u) + u,
            2 * (a * u) <= 2 * (n * u) + u,
            u > 0,
    ;
    exact::lemma_held(w, 1);
    assert(w.magnitude() * 1 == w.magnitude());
    exact::lemma_units_close(x);
    let k: nat = single::units_of(x);
    assert(k <= 0x80_0000) by (nonlinear_arith)
        requires
            2 * (k * u) <= 2 * x.magnitude() + u,
            x.magnitude() < 0x80_0000 * u,
            u > 0,
    ;
    exact::lemma_whole_magnitude(k as int);
    let s: Single = single::whole(k as int);
    exact::lemma_held(s, 1);
    assert(s.magnitude() * 1 == s.magnitude());
    single::lemma_rounded_rounds(x.negative(), k * u, 1);
    single::lemma_multiple_rounds_back(s, 1);
    assert(app::target_from(Some(x), target).magnitude() == k * u);
}

// ---------------------------------------------------------------------------
// The log
// ---------------------------------------------------------------------------

/// A new line comes last; all lines before it stay, in order, but for the oldest one where the log
/// is full.
pub proof fn the_log_keeps_its_newest_lines(lines: Seq<Seq<char>>, t: Seq<char>, i: int)
    requires
        lines.len() <= MAX_LOG_LINES,
    ensures
        app::logged(lines, t).last() == app::as_log_line(t),
        lines.len() < MAX_LOG_LINES ==> app::logged(lines, t).len() == lines.len() + 1,
        lines.len() == MAX_LOG_LINES ==> app::logged(lines, t).len() == lines.len(),
        lines.len() < MAX_LOG_LINES && 0 <= i < lines.len() ==> app::logged(lines, t)[i]
            == lines[i],
        lines.len() == MAX_LOG_LINES && 0 < i < lines.len() ==> app::logged(lines, t)[i - 1]
            == lines[i],
        MAX_LOG_LINES == 5000,
{
}

/// A line of up to 2000 characters is logged as it is; a longer one keeps its first 2000, and says
/// that it was cut.
pub proof fn a_long_line_keeps_its_start(t: Seq<char>)
    ensures
        t.len() <= 2000 ==> app::as_log_line(t) == t,
        t.len() > 2000 ==> app::as_log_line(t) == t.take(2000) + "... [truncated]"@,
        MAX_LOG_LINE_CHARS == 2000,
{
}

/// Errors are counted line by line.
pub proof fn errors_are_counted_line_by_line(a: Seq<Seq<char>>, line: Seq<char>, b: Seq<Seq<char>>)
    ensures
        app::errors_in(Seq::empty()) == 0,
        app::errors_in(seq![line]) == if app::is_error(line) {
            1nat
        } else {
            0nat
        },
        app::errors_in(a + b) == app::errors_in(a) + app::errors_in(b),
    decreases b.len(),
{
    let one: Seq<Seq<char>> = seq![line];
    assert(one.drop_last() =~= Seq::<Seq<char>>::empty());
    assert(app::errors_in(one.drop_last()) == 0);
    if b.len() == 0 {
        assert(a + b =~= a);
    } else {
        assert((a + b).drop_last() =~= a + b.drop_last());
        assert((a + b).last() == b.last());
        errors_are_counted_line_by_line(a, line, b.drop_last());
    }
}

/// A line is an error exactly where it starts with the mark of one.
pub proof fn an_error_starts_with_its_mark(t: Seq<char>)
    ensures
        app::is_error("[ERROR]"@ + t),
        t.len() > 0 && t[0] != '[' ==> !app::is_error(t),
{
    reveal_strlit("[ERROR]");
    let l: Seq<char> = "[ERROR]"@ + t;
    assert(l.take(7) =~= "[ERROR]"@);
    if t.len() >= 7 {
        assert(t.take(7)[0] == t[0]);
    }
}

proof fn lemma_folder_end(line: Seq<char>)
    ensures
        app::folder_end(line) <= line.len(),
        app::folder_end(line) > 0 ==> line[app::folder_end(line) - 1] == '/' || line[app::folder_end(
            line,
        ) - 1] == '\\',
        forall|k: int|
            app::folder_end(line) <= k < line.len() ==> line[k] != '/' && line[k] != '\\',
    decreases line.len(),
{
    if line.len() > 0 {
        let h: Seq<char> = line.drop_last();
        if line.last() != '/' && line.last() != '\\' {
            lemma_folder_end(h);
            let n: nat = app::folder_end(h);
            if n > 0 {
                assert(h[n - 1] == line[n - 1]);
            }
            assert forall|k: int| n <= k < line.len() implies line[k] != '/' && line[k] != '\\' by {
                if k < h.len() {
                    assert(h[k] == line[k]);
                }
            }
        }
    }
}

/// A log line is drawn in two parts that make it up: the first ends with its last slash, and none
/// stands in the second.
pub proof fn a_log_line_is_split_behind_its_last_slash(line: &str, r: LogLine)
    requires
        call_ensures(app::split_log_line, (line,), r),
    ensures
        r.dim@ + r.bright@ == line@,
        !r.bright@.contains('/') && !r.bright@.contains('\\'),
        r.dim@.len() > 0 ==> r.dim@.last() == '/' || r.dim@.last() == '\\',
        r.error == app::is_error(line@),
{
    lemma_folder_end(line@);
    let n: int = app::folder_end(line@) as int;
    let b: Seq<char> = r.bright@;
    if b.contains('/') {
        let k: int = choose|k: int| 0 <= k < b.len() && b[k] == '/';
        assert(line@[n + k] == '/');
    }
    if b.contains('\\') {
        let k: int = choose|k: int| 0 <= k < b.len() && b[k] == '\\';
        assert(line@[n + k] == '\\');
    }
}

// ---------------------------------------------------------------------------
// Runs
// ---------------------------------------------------------------------------

/// A message changes what it is about and nothing else.
pub proof fn a_message_changes_what_it_is_about(r: RunModel, m: AppMsg)
    ensures
        ({
            let s = app::received(r, m);
            match m {
                AppMsg::Log(t) => s.logs == app::logged(r.logs, t@) && s == (RunModel {
                    logs: s.logs,
                    ..r
                }),
                AppMsg::Error(t) => s.logs == app::logged(r.logs, "[ERROR] "@ + t@) && s == (
                RunModel { logs: s.logs, ..r }),
                AppMsg::Progress(current, total) => {
                    &&& s.total_files == total
                    &&& s.current_progress >= current && s.current_progress >= r.current_progress
                    &&& s.current_progress == current || s.current_progress == r.current_progress
                    &&& s == (RunModel {
                        current_progress: s.current_progress,
                        total_files: s.total_files,
                        ..r
                    })
                },
                AppMsg::Finished => s == (RunModel {
                    is_processing: false,
                    is_analyzing: false,
                    ..r
                }),
                AppMsg::Stopped => s == (RunModel {
                    is_processing: false,
                    is_analyzing: false,
                    ..r
                }),
                AppMsg::AnalysisResult(avg) => s == (RunModel { average_lufs: Some(avg), ..r }),
            }
        }),
{
}

/// A run starts only where nothing is under way and the folders are in order; it starts with an
/// empty log and no progress, and keeps the average. Otherwise a complaint is logged, or nothing
/// happens at all.
pub proof fn a_run_starts_where_nothing_is_under_way(r: RunModel, folders: Result<(), String>)
    ensures
        ({
            let s = app::on_start(r, folders);
            let idle = !r.is_processing && !r.is_analyzing;
            &&& !idle ==> s == r
            &&& idle && folders is Ok ==> s.is_processing && !s.is_analyzing && s.logs.len() == 0
                && s.current_progress == 0 && s.total_files == 0 && s.average_lufs
                == r.average_lufs
            &&& idle && folders is Err ==> !s.is_processing && !s.is_analyzing && s.logs
                == app::logged(r.logs, "[ERROR] "@ + folders->Err_0@) && s.current_progress
                == r.current_progress && s.total_files == r.total_files && s.average_lufs
                == r.average_lufs
        }),
{
}

/// An analysis starts only where nothing is under way and a folder was picked; it forgets the last
/// average and the progress, and keeps the log, with the folder as its newest line.
pub proof fn an_analysis_starts_where_nothing_is_under_way(r: RunModel, folder: Option<Seq<char>>)
    ensures
        ({
            let s = app::on_analysis(r, folder);
            let starts = !r.is_processing && !r.is_analyzing && folder is Some;
            &&& !starts ==> s == r
            &&& starts ==> s.is_analyzing && !s.is_processing && s.average_lufs is None
                && s.current_progress == 0 && s.total_files == 0 && s.logs == app::logged(
                r.logs,
                "Started folder analysis: "@ + folder->0,
            )
        }),
{
}

/// Asking for a stop is logged, and stops nothing by itself.
pub proof fn asking_for_a_stop_is_logged(r: RunModel)
    ensures
        app::on_stop(r).is_processing == r.is_processing,
        app::on_stop(r).is_analyzing == r.is_analyzing,
        app::on_stop(r).average_lufs == r.average_lufs,
        app::on_stop(r).current_progress == r.current_progress,
        app::on_stop(r).total_files == r.total_files,
        app::on_stop(r).logs == app::logged(r.logs, "Stop requested \u{2014} finishing up..."@),
{
}

/// The log is shown once when a run starts; from then on the user's choice stays, until the next
/// run.
pub proof fn the_log_is_shown_once_per_run(shown: Section, chosen: Section)
    ensures
        app::followed((shown, false), true) == (Section::Logs, true),
        app::followed((chosen, true), true) == (chosen, true),
        app::followed((chosen, true), false) == (chosen, false),
        app::followed((chosen, false), false) == (chosen, false),
{
}

/// The progress is nothing at the start, all at the end, and never falls as files are done.
pub proof fn progress_runs_from_nothing_to_all(a: AudioBatchApp, b: AudioBatchApp)
    requires
        a.total_files == b.total_files,
        0 < a.total_files < 0x100_0000,
        a.current_progress <= b.current_progress <= a.total_files,
    ensures
        a.current_progress == 0 ==> a.progress().value() == 0,
        b.current_progress == a.total_files ==> b.progress() == single::whole(1),
        single::at_most(a.progress(), b.progress()),
        single::in_unit(a.progress()),
{
    let t: int = a.total_files as int;
    let x: int = a.current_progress as int;
    let y: int = b.current_progress as int;
    let u: nat = pow2(149);
    lemma_pow2_pos(149);
    exact::lemma_whole_zero();
    exact::lemma_whole_magnitude(t);
    exact::lemma_whole_magnitude(x);
    exact::lemma_whole_magnitude(y);
    exact::lemma_whole_magnitude(1);
    single::lemma_units_order(0, t);
    let d: nat = single::whole(t).magnitude();
    assert(d > 0) by {
        assert(0 * pow2(149) == 0);
    }
    single::lemma_zero_magnitude(single::whole(t));
    let one: Single = single::whole(1);
    assert(d * u == (1 * u) * d) by (nonlinear_arith);
    exact::lemma_quotient_held(single::whole(t), single::whole(t), one);
    let m: nat = single::whole(x).magnitude() * u;
    let n: nat = single::whole(y).magnitude() * u;
    let o: nat = d * u;
    assert(m <= n <= o) by (nonlinear_arith)
        requires
            m == (x * u) * u,
            n == (y * u) * u,
            o == (t * u) * u,
            0 <= x <= y <= t,
    ;
    assert(single::rounded(false, o, d) == one);
    single::lemma_rounded_monotone(n, o, d);
    single::lemma_rounded_monotone(m, n, d);
    if x == 0 {
        single::lemma_zero_magnitude(single::whole(0));
        single::lemma_whole_exact(t);
        single::lemma_zero_quotient(single::whole(0), single::whole(t));
        single::lemma_zero_magnitude(a.progress());
    }
    assert(1 * u == u);
}

/// Without files there is no progress.
pub proof fn without_files_there_is_no_progress(a: AudioBatchApp)
    requires
        a.total_files == 0,
    ensures
        a.progress() == single::whole(0),
{
}

/// What the progress says in words: the files done, out of all of them.
pub proof fn the_count_tells_both_numbers(a: &AudioBatchApp, r: String)
    requires
        call_ensures(AudioBatchApp::progress_count, (a,), r),
    ensures
        r@ == text::decimal(a.current_progress as nat) + " / "@ + text::decimal(
            a.total_files as nat,
        ) + " files"@,
{
}

/// A run can be started once both folders are chosen, and its settings are open while none runs.
pub proof fn what_can_be_done_when(a: &AudioBatchApp, start: bool, open: bool)
    requires
        call_ensures(AudioBatchApp::can_start, (a,), start),
        call_ensures(AudioBatchApp::section_enabled, (a,), open),
    ensures
        start <==> a.input_dir@.len() > 0 && a.output_dir@.len() > 0,
        !a.is_processing ==> open,
        a.is_processing ==> (open <==> a.section == Section::Logs),
{
}

/// What is under way is named: the analysis where it is one.
pub proof fn what_is_under_way_is_named(a: &AudioBatchApp, r: &'static str)
    requires
        call_ensures(AudioBatchApp::activity, (a,), r),
    ensures
        a.is_analyzing ==> r@ == "Analyzing"@,
        !a.is_analyzing ==> r@ == "Processing"@,
{
}

/// The notices are given exactly where they are due.
pub proof fn notices_are_given_where_due(
    a: &AudioBatchApp,
    folder: Option<&'static str>,
    bitrate: Option<&'static str>,
    reduction: Option<&'static str>,
)
    requires
        call_ensures(AudioBatchApp::folder_notice, (a,), folder),
        call_ensures(AudioBatchApp::bitrate_notice, (a,), bitrate),
        call_ensures(AudioBatchApp::reduction_notice, (a,), reduction),
    ensures
        folder is Some <==> a.input_dir@ == a.output_dir@ && a.input_dir@.len() > 0,
        bitrate is Some <==> (a.output_format == OutputFormat::Mp3 || a.output_format
            == OutputFormat::Ogg) && a.bitrate_kbps <= 48,
        reduction is Some <==> a.automixer_expander && a.automixer_expander_reduction_profile
            == ReductionProfile::Max,
{
}

/// A click changes the choice exactly where it picks another one.
pub proof fn a_click_changes_the_choice_where_it_picks_another(
    selected: usize,
    clicked: usize,
    other: Option<usize>,
    none: Option<usize>,
)
    requires
        call_ensures(ui::segment_change, (selected, Some(clicked)), other),
        call_ensures(ui::segment_change, (selected, None), none),
    ensures
        other is Some <==> clicked != selected,
        other matches Some(i) ==> i == clicked,
        none is None,
{
}

} // verus!
