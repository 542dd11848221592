//! Talking to FFmpeg: the command lines it is given, and what its diagnostics say.

use vstd::prelude::*;

use crate::args;
use crate::args::{Arg, ArgModel, Source};
pub use crate::paths::is_audio_file;
use crate::single;
use crate::single::Single;
use crate::text;
use crate::types::LoudnormStats;

verus! {

// ---------------------------------------------------------------------------
// Spawn counter
// ---------------------------------------------------------------------------

/// How many FFmpeg invocations have been built.
///
/// Launching a process dominates the cost of a short file, so the number of processes per file is
/// a budget.
pub struct SpawnCounter {
    pub count: u64,
}

impl SpawnCounter {
    /// A counter at zero.
    pub fn new() -> (c: SpawnCounter)
        ensures
            c.count == 0,
    {
        SpawnCounter { count: 0 }
    }
}

/// The number of invocations built since the last [`reset_spawn_count`].
pub fn spawn_count(c: &SpawnCounter) -> (n: u64)
    ensures
        n == c.count,
{
    c.count
}

/// Zeroes the counter and returns what it stood at.
pub fn reset_spawn_count(c: &mut SpawnCounter) -> (n: u64)
    ensures
        n == old(c).count,
        final(c).count == 0,
{
    let n: u64 = c.count;
    c.count = 0;
    n
}

/// How every command line for FFmpeg opens: it must not read the standard input of its parent.
pub open spec fn opening() -> Seq<ArgModel> {
    seq![args::word("-nostdin"@)]
}

/// Opens a command line for FFmpeg.
pub fn opened() -> (cmd: Vec<Arg>)
    ensures
        args::model(cmd@) == opening(),
{
    let mut cmd: Vec<Arg> = args::empty();
    args::push_text(&mut cmd, "-nostdin");
    cmd
}

/// Counts one invocation.
pub fn count_invocation(c: &mut SpawnCounter)
    requires
        old(c).count < u64::MAX,
    ensures
        final(c).count == old(c).count + 1,
{
    c.count = c.count + 1;
}

/// Opens a command line for FFmpeg, and counts it.
pub fn ffmpeg_cmd(c: &mut SpawnCounter) -> (cmd: Vec<Arg>)
    requires
        old(c).count < u64::MAX,
    ensures
        args::model(cmd@) == opening(),
        final(c).count == old(c).count + 1,
{
    count_invocation(c);
    opened()
}

// ---------------------------------------------------------------------------
// Finding FFmpeg
// ---------------------------------------------------------------------------

/// Where FFmpeg was found.
#[derive(Clone, Copy, PartialEq, Eq, Debug, Structural)]
pub enum FfmpegPlace {
    /// On the search path, under its bare name.
    OnPath,
    /// In the folder of the application.
    BesideApplication,
}

/// Picks the FFmpeg to use: the one on the search path if it runs, else the one beside the
/// application if it is there and runs.
pub fn choose_ffmpeg(on_path: bool, beside: bool) -> (r: Result<FfmpegPlace, &'static str>)
    ensures
        match r {
            Ok(p) => if on_path {
                p == FfmpegPlace::OnPath
            } else {
                beside && p == FfmpegPlace::BesideApplication
            },
            Err(m) => !on_path && !beside && m@
                == "FFmpeg not found.\nPlace ffmpeg.exe in the same folder as this application, or add it to your system PATH."@,
        },
{
    if on_path {
        Ok(FfmpegPlace::OnPath)
    } else if beside {
        Ok(FfmpegPlace::BesideApplication)
    } else {
        Err(
            "FFmpeg not found.\nPlace ffmpeg.exe in the same folder as this application, or add it to your system PATH.",
        )
    }
}

// ---------------------------------------------------------------------------
// Command lines
// ---------------------------------------------------------------------------

/// Prints the stream summary of the input.
pub open spec fn probe_tail() -> Seq<ArgModel> {
    seq![args::word("-hide_banner"@), args::word("-i"@), ArgModel::Input]
}

/// Reads the source, runs its audio through `filter`, and throws the result away.
pub open spec fn measurement_tail(source: Source, filter: Seq<char>) -> Seq<ArgModel> {
    seq![
        args::word("-y"@),
        args::word("-hide_banner"@),
        args::word("-i"@),
        args::read_from(source),
        args::word("-vn"@),
        args::word("-af"@),
        args::word(filter),
        args::word("-f"@),
        args::word("null"@),
        args::word("-"@),
    ]
}

/// `filter`, behind the filters that come before it if there are any.
pub open spec fn behind(prefix: Option<Seq<char>>, filter: Seq<char>) -> Seq<char> {
    match prefix {
        Some(p) => p + ","@ + filter,
        None => filter,
    }
}

/// The text that an optional string holds.
pub open spec fn opt_text(s: Option<&str>) -> Option<Seq<char>> {
    match s {
        Some(t) => Some(t@),
        None => None,
    }
}

/// The filter that measures loudness against a target.
pub open spec fn loudnorm_measure(lufs: Seq<char>) -> Seq<char> {
    "loudnorm=I="@ + lufs + ":TP=-1.5:LRA=1.0:print_format=json"@
}

/// The filter that measures loudness on audio padded with silence to `pad` seconds.
pub open spec fn padded_measure(lufs: Seq<char>, pad: Seq<char>) -> Seq<char> {
    "apad=pad_dur="@ + pad + ",atrim=end="@ + pad + ","@ + loudnorm_measure(lufs)
}

/// The filter that normalizes to a target with what was measured.
pub open spec fn loudnorm_apply(lufs: Seq<char>, stats: LoudnormStats) -> Seq<char> {
    "loudnorm=I="@ + lufs + ":TP=-1.5:LRA=1.0:measured_I="@ + stats.input_i@ + ":measured_LRA="@
        + stats.input_lra@ + ":measured_TP="@ + stats.input_tp@ + ":measured_thresh="@
        + stats.input_thresh@ + ":offset="@ + stats.target_offset@ + ":linear=true"@
}

/// `filter`, behind the filters that come before it if there are any.
pub fn prefixed(prefix: Option<&str>, filter: &str) -> (r: String)
    ensures
        r@ == behind(opt_text(prefix), filter@),
{
    match prefix {
        Some(p) => text::comma(p, filter),
        None => filter.to_owned(),
    }
}

fn loudnorm_measure_text(lufs: &str) -> (r: String)
    ensures
        r@ == loudnorm_measure(lufs@),
{
    let mut r: String = "loudnorm=I=".to_owned();
    r.append(lufs);
    r.append(":TP=-1.5:LRA=1.0:print_format=json");
    r
}

/// Asks for the stream summary of the input.
pub fn add_probe(cmd: &mut Vec<Arg>)
    ensures
        args::model(final(cmd)@) == args::model(old(cmd)@) + probe_tail(),
{
    args::push_text(cmd, "-hide_banner");
    args::push_text(cmd, "-i");
    args::push(cmd, Arg::Input);
    assert(args::model(cmd@) == args::model(old(cmd)@) + probe_tail());
}

/// A command line that asks for the stream summary of the input, counted as one invocation.
pub fn probe_cmd(c: &mut SpawnCounter) -> (cmd: Vec<Arg>)
    requires
        old(c).count < u64::MAX,
    ensures
        args::model(cmd@) == opening() + probe_tail(),
        final(c).count == old(c).count + 1,
{
    let mut cmd: Vec<Arg> = ffmpeg_cmd(c);
    add_probe(&mut cmd);
    cmd
}

/// Asks for a measurement of the source by `filter`.
pub fn add_measurement(cmd: &mut Vec<Arg>, source: Source, filter: &str)
    ensures
        args::model(final(cmd)@) == args::model(old(cmd)@) + measurement_tail(source, filter@),
{
    args::push_text(cmd, "-y");
    args::push_text(cmd, "-hide_banner");
    args::push_text(cmd, "-i");
    args::push_source(cmd, source);
    args::push_text(cmd, "-vn");
    args::push_text(cmd, "-af");
    args::push_text(cmd, filter);
    args::push_text(cmd, "-f");
    args::push_text(cmd, "null");
    args::push_text(cmd, "-");
    assert(args::model(cmd@) == args::model(old(cmd)@) + measurement_tail(source, filter@));
}

/// Asks for the integrated loudness of the input, for the overview of a folder.
pub fn add_overview_measurement(cmd: &mut Vec<Arg>)
    ensures
        args::model(final(cmd)@) == args::model(old(cmd)@) + measurement_tail(
            Source::Input,
            loudnorm_measure("-23"@),
        ),
{
    let filter: String = loudnorm_measure_text("-23");
    add_measurement(cmd, Source::Input, filter.as_str());
}

/// Asks for the first pass of loudness normalization.
pub fn add_stats_measurement(
    cmd: &mut Vec<Arg>,
    source: Source,
    lufs: &str,
    prefix: Option<&str>,
)
    ensures
        args::model(final(cmd)@) == args::model(old(cmd)@) + measurement_tail(
            source,
            behind(opt_text(prefix), loudnorm_measure(lufs@)),
        ),
{
    let loudnorm: String = loudnorm_measure_text(lufs);
    let filter: String = prefixed(prefix, loudnorm.as_str());
    add_measurement(cmd, source, filter.as_str());
}

/// Asks for the first pass of loudness normalization on padded audio.
pub fn add_padded_measurement(
    cmd: &mut Vec<Arg>,
    source: Source,
    lufs: &str,
    pad: &str,
    prefix: Option<&str>,
)
    ensures
        args::model(final(cmd)@) == args::model(old(cmd)@) + measurement_tail(
            source,
            behind(opt_text(prefix), padded_measure(lufs@, pad@)),
        ),
{
    let loudnorm: String = loudnorm_measure_text(lufs);
    let mut chain: String = "apad=pad_dur=".to_owned();
    chain.append(pad);
    chain.append(",atrim=end=");
    chain.append(pad);
    chain.append(",");
    chain.append(loudnorm.as_str());
    let filter: String = prefixed(prefix, chain.as_str());
    add_measurement(cmd, source, filter.as_str());
}

/// Asks for the peak level of the source.
pub fn add_peak_measurement(cmd: &mut Vec<Arg>, source: Source, prefix: Option<&str>)
    ensures
        args::model(final(cmd)@) == args::model(old(cmd)@) + measurement_tail(
            source,
            behind(opt_text(prefix), "volumedetect"@),
        ),
{
    let filter: String = prefixed(prefix, "volumedetect");
    add_measurement(cmd, source, filter.as_str());
}

/// `-af` with the filter, then `-ar` with the sample rate.
pub open spec fn filter_and_rate(filter: Seq<char>, sr: u32) -> Seq<ArgModel> {
    seq![
        args::word("-af"@),
        args::word(filter),
        args::word("-ar"@),
        args::word(text::decimal(sr as nat)),
    ]
}

/// Appends `-af` with the filter, then `-ar` with the sample rate.
pub fn add_filter_and_rate(cmd: &mut Vec<Arg>, filter: &str, sr: u32)
    ensures
        args::model(final(cmd)@) == args::model(old(cmd)@) + filter_and_rate(filter@, sr),
{
    let rate: String = text::decimal_text(sr as u128);
    args::push_text(cmd, "-af");
    args::push_text(cmd, filter);
    args::push_text(cmd, "-ar");
    args::push_text(cmd, rate.as_str());
    assert(args::model(cmd@) == args::model(old(cmd)@) + filter_and_rate(filter@, sr));
}

/// Appends the second pass of loudness normalization.
pub fn apply_loudnorm_pass2(
    cmd: &mut Vec<Arg>,
    lufs: &str,
    stats: &LoudnormStats,
    source_sr: u32,
    prefix: Option<&str>,
)
    ensures
        args::model(final(cmd)@) == args::model(old(cmd)@) + filter_and_rate(
            behind(opt_text(prefix), loudnorm_apply(lufs@, *stats)),
            source_sr,
        ),
{
    let mut f: String = "loudnorm=I=".to_owned();
    f.append(lufs);
    f.append(":TP=-1.5:LRA=1.0:measured_I=");
    f.append(stats.input_i.as_str());
    f.append(":measured_LRA=");
    f.append(stats.input_lra.as_str());
    f.append(":measured_TP=");
    f.append(stats.input_tp.as_str());
    f.append(":measured_thresh=");
    f.append(stats.input_thresh.as_str());
    f.append(":offset=");
    f.append(stats.target_offset.as_str());
    f.append(":linear=true");
    let filter: String = prefixed(prefix, f.as_str());
    add_filter_and_rate(cmd, filter.as_str(), source_sr);
}

// ---------------------------------------------------------------------------
// Stream summary
// ---------------------------------------------------------------------------

/// The sample rate that the words at `i` and `i + 1` give: a number from 8000 to 192000 and `Hz`,
/// each perhaps with commas behind it.
pub open spec fn rate_at(w: Seq<Seq<char>>, i: int) -> Option<nat> {
    if text::without_trailing(w[i + 1], ',') == "Hz"@ {
        match text::unsigned_value(text::without_trailing(w[i], ','), u32::MAX as nat) {
            Some(v) => if 8_000 <= v <= 192_000 {
                Some(v)
            } else {
                None
            },
            None => None,
        }
    } else {
        None
    }
}

/// The first sample rate that the words from `i` on give.
pub open spec fn first_rate(w: Seq<Seq<char>>, i: int) -> Option<nat>
    decreases w.len() - i,
{
    if i < 0 || i + 1 >= w.len() {
        None
    } else if rate_at(w, i) is Some {
        rate_at(w, i)
    } else {
        first_rate(w, i + 1)
    }
}

/// The sample rate that a stream summary reports.
pub open spec fn sample_rate_in(stderr: Seq<char>) -> Option<nat> {
    first_rate(text::words(stderr), 0)
}

fn is_hz(w: &Vec<char>) -> (r: bool)
    ensures
        r == (text::without_trailing(w@, ',') == "Hz"@),
{
    let n: usize = text::end_without(w.as_slice(), ',');
    let s: String = text::text_between(w.as_slice(), 0, n);
    assert(s@ == w@.take(n as int));
    text::same(s.as_str(), "Hz")
}

/// Reads the sample rate off a stream summary.
pub fn parse_sample_rate(stderr: &str) -> (r: Option<u32>)
    ensures
        match r {
            Some(v) => sample_rate_in(stderr@) == Some(v as nat),
            None => sample_rate_in(stderr@) is None,
        },
{
    let chars: Vec<char> = text::chars_of(stderr);
    let w: Vec<Vec<char>> = text::words_of(chars.as_slice());
    let ghost ws: Seq<Seq<char>> = text::words(stderr@);
    assert(w@.len() == ws.len());
    let mut i: usize = 0;
    while i < w.len() && i + 1 < w.len()
        invariant
            i <= w@.len(),
            ws == text::char_seqs(w@),
            ws == text::words(stderr@),
            first_rate(ws, i as int) == first_rate(ws, 0),
        decreases w@.len() - i,
    {
        assert(ws[i as int] == w@[i as int]@ && ws[i + 1] == w@[i + 1]@);
        if is_hz(&w[i + 1]) {
            let n: usize = text::end_without(w[i].as_slice(), ',');
            let number: Vec<char> = text::part(w[i].as_slice(), 0, n);
            assert(number@ == w@[i as int]@.take(n as int));
            if let Some(sr) = text::parse_u32(number.as_slice()) {
                if 8_000 <= sr && sr <= 192_000 {
                    return Some(sr);
                }
            }
        }
        i = i + 1;
    }
    None
}

/// The hours, minutes and seconds that a word gives: three numbers between colons, perhaps with
/// commas behind them.
pub open spec fn clock_in(w: Seq<char>) -> Option<(Seq<char>, Seq<char>, Seq<char>)> {
    let p = text::pieces(text::without_trailing(w, ','), ':');
    if p.len() == 3 && text::is_float_text(p[0]) && text::is_float_text(p[1])
        && text::is_float_text(p[2]) {
        Some((p[0], p[1], p[2]))
    } else {
        None
    }
}

/// The first time that the words from `i` on give.
pub open spec fn first_clock(w: Seq<Seq<char>>, i: int) -> Option<
    (Seq<char>, Seq<char>, Seq<char>),
>
    decreases w.len() - i,
{
    if i < 0 || i >= w.len() {
        None
    } else if clock_in(w[i]) is Some {
        clock_in(w[i])
    } else {
        first_clock(w, i + 1)
    }
}

/// The first time that stands in a line about the duration, from line `i` on.
pub open spec fn clock_from_line(lines: Seq<Seq<char>>, i: int) -> Option<
    (Seq<char>, Seq<char>, Seq<char>),
>
    decreases lines.len() - i,
{
    if i < 0 || i >= lines.len() {
        None
    } else if text::contains(lines[i], "Duration:"@) && first_clock(
        text::words(lines[i]),
        0,
    ) is Some {
        first_clock(text::words(lines[i]), 0)
    } else {
        clock_from_line(lines, i + 1)
    }
}

/// The hours, minutes and seconds that a stream summary reports as the duration.
pub open spec fn duration_in(stderr: Seq<char>) -> Option<(Seq<char>, Seq<char>, Seq<char>)> {
    clock_from_line(text::pieces(stderr, '\n'), 0)
}

/// Hours, minutes and seconds, each as a decimal text.
#[derive(Debug, PartialEq)]
pub struct Clock {
    pub hours: String,
    pub minutes: String,
    pub seconds: String,
}

impl Clock {
    /// The hours, minutes and seconds.
    pub open spec fn texts(self) -> (Seq<char>, Seq<char>, Seq<char>) {
        (self.hours@, self.minutes@, self.seconds@)
    }
}

/// A time was read exactly where there is one to read.
pub open spec fn clock_reads(r: Option<Clock>, m: Option<(Seq<char>, Seq<char>, Seq<char>)>) -> bool {
    match r {
        Some(c) => m == Some(c.texts()),
        None => m is None,
    }
}

fn parse_clock(w: &Vec<char>) -> (r: Option<Clock>)
    ensures
        clock_reads(r, clock_in(w@)),
{
    let n: usize = text::end_without(w.as_slice(), ',');
    let t: Vec<char> = text::part(w.as_slice(), 0, n);
    assert(t@ == w@.take(n as int));
    let p: Vec<Vec<char>> = text::pieces_of(t.as_slice(), ':');
    let ghost ps: Seq<Seq<char>> = text::pieces(t@, ':');
    assert(p@.len() == ps.len());
    if p.len() != 3 {
        return None;
    }
    assert(ps[0] == p@[0]@ && ps[1] == p@[1]@ && ps[2] == p@[2]@);
    if text::float_text(p[0].as_slice()) && text::float_text(p[1].as_slice()) && text::float_text(
        p[2].as_slice(),
    ) {
        Some(
            Clock {
                hours: text::text_of(p[0].as_slice()),
                minutes: text::text_of(p[1].as_slice()),
                seconds: text::text_of(p[2].as_slice()),
            },
        )
    } else {
        None
    }
}

/// Reads the duration off a stream summary.
pub fn parse_duration(stderr: &str) -> (r: Option<Clock>)
    ensures
        clock_reads(r, duration_in(stderr@)),
{
    let chars: Vec<char> = text::chars_of(stderr);
    let lines: Vec<Vec<char>> = text::pieces_of(chars.as_slice(), '\n');
    let needle: Vec<char> = text::chars_of("Duration:");
    let ghost ls: Seq<Seq<char>> = text::pieces(stderr@, '\n');
    assert(lines@.len() == ls.len());
    let mut i: usize = 0;
    while i < lines.len()
        invariant
            i <= lines@.len(),
            ls == text::char_seqs(lines@),
            ls == text::pieces(stderr@, '\n'),
            needle@ == "Duration:"@,
            clock_from_line(ls, i as int) == clock_from_line(ls, 0),
        decreases lines@.len() - i,
    {
        assert(ls[i as int] == lines@[i as int]@);
        if text::holds(lines[i].as_slice(), needle.as_slice()) {
            let w: Vec<Vec<char>> = text::words_of(lines[i].as_slice());
            let ghost ws: Seq<Seq<char>> = text::words(ls[i as int]);
            assert(w@.len() == ws.len());
            let mut j: usize = 0;
            while j < w.len()
                invariant
                    i < lines@.len(),
                    ls == text::char_seqs(lines@),
                    ls == text::pieces(stderr@, '\n'),
                    j <= w@.len(),
                    ws == text::char_seqs(w@),
                    ws == text::words(ls[i as int]),
                    text::contains(ls[i as int], "Duration:"@),
                    first_clock(ws, j as int) == first_clock(ws, 0),
                    clock_from_line(ls, i as int) == clock_from_line(ls, 0),
                decreases w@.len() - j,
            {
                assert(ws[j as int] == w@[j as int]@);
                let c: Option<Clock> = parse_clock(&w[j]);
                if c.is_some() {
                    return c;
                }
                j = j + 1;
            }
        }
        i = i + 1;
    }
    None
}

/// The sample rate that a probe tells, given its diagnostics; one that could not be run tells
/// nothing.
pub open spec fn probed_rate(stderr: Option<Seq<char>>) -> Option<nat> {
    match stderr {
        Some(t) => sample_rate_in(t),
        None => None,
    }
}

/// The duration that a probe tells, given its diagnostics; one that could not be run tells
/// nothing.
pub open spec fn probed_duration(stderr: Option<Seq<char>>) -> Option<
    (Seq<char>, Seq<char>, Seq<char>),
> {
    match stderr {
        Some(t) => duration_in(t),
        None => None,
    }
}

/// A rate was read exactly where there is one to read.
pub open spec fn rate_reads(r: Option<u32>, m: Option<nat>) -> bool {
    match r {
        Some(v) => m == Some(v as nat),
        None => m is None,
    }
}

/// What a probe of the input tells: its sample rate and its duration. Both come from one run; a
/// run that failed tells neither.
pub fn probe_input(stderr: Option<&str>) -> (r: (Option<u32>, Option<Clock>))
    ensures
        rate_reads(r.0, probed_rate(opt_text(stderr))),
        clock_reads(r.1, probed_duration(opt_text(stderr))),
{
    match stderr {
        Some(t) => (parse_sample_rate(t), parse_duration(t)),
        None => (None, None),
    }
}

/// The sample rate that a probe of the input tells.
pub fn get_sample_rate(stderr: Option<&str>) -> (r: Option<u32>)
    ensures
        rate_reads(r, probed_rate(opt_text(stderr))),
{
    match stderr {
        Some(t) => parse_sample_rate(t),
        None => None,
    }
}

/// The duration that a probe of the input tells.
pub fn get_duration(stderr: Option<&str>) -> (r: Option<Clock>)
    ensures
        clock_reads(r, probed_duration(opt_text(stderr))),
{
    match stderr {
        Some(t) => parse_duration(t),
        None => None,
    }
}

/// `h * 3600 + m * 60 + s`.
pub open spec fn seconds_in(h: Single, m: Single, s: Single) -> Single {
    single::sum(
        single::sum(
            single::product(h, single::whole(3600)),
            single::product(m, single::whole(60)),
        ),
        s,
    )
}

/// The seconds in hours, minutes and seconds.
pub fn duration_secs(h: Single, m: Single, s: Single) -> (r: Single)
    ensures
        r == seconds_in(h, m, s),
{
    h.times(Single::from_i32(3600)).plus(m.times(Single::from_i32(60))).plus(s)
}

// ---------------------------------------------------------------------------
// Failures
// ---------------------------------------------------------------------------

/// The end of FFmpeg's diagnostics: the last 600 characters behind three dots, or all of them if
/// they are fewer.
pub open spec fn diagnostic_tail(stderr: Seq<char>) -> Seq<char> {
    let t = text::trimmed_end(stderr);
    if t.len() >= 600 {
        "..."@ + t.skip(t.len() - 600)
    } else {
        t
    }
}

/// What is said of a run of FFmpeg that failed.
pub open spec fn failure_text(stage: Seq<char>, stderr: Seq<char>) -> Seq<char> {
    if text::trimmed_end(stderr).len() == 0 {
        "FFmpeg failed during "@ + stage + " without reporting a reason"@
    } else {
        "FFmpeg failed during "@ + stage + ": "@ + diagnostic_tail(stderr)
    }
}

/// Words a failed run, keeping the tail of FFmpeg's diagnostics, where the reason stands.
pub fn ffmpeg_failed(stage: &str, stderr: &str) -> (r: String)
    ensures
        r@ == failure_text(stage@, stderr@),
{
    let chars: Vec<char> = text::chars_of(stderr);
    let n: usize = text::end_trimmed(chars.as_slice());
    let mut r: String = "FFmpeg failed during ".to_owned();
    r.append(stage);
    if n == 0 {
        r.append(" without reporting a reason");
        return r;
    }
    r.append(": ");
    let ghost t: Seq<char> = text::trimmed_end(stderr@);
    if n >= 600 {
        let tail: String = text::text_between(chars.as_slice(), n - 600, n);
        assert(tail@ == t.skip(t.len() - 600));
        r.append("...");
        r.append(tail.as_str());
        assert(r@ == "FFmpeg failed during "@ + stage@ + ": "@ + ("..."@ + tail@));
    } else {
        let tail: String = text::text_between(chars.as_slice(), 0, n);
        assert(tail@ == t);
        r.append(tail.as_str());
    }
    r
}

// ---------------------------------------------------------------------------
// Loudness reports
// ---------------------------------------------------------------------------

/// Why no report could be cut out of FFmpeg's diagnostics.
#[derive(Clone, Copy, PartialEq, Eq, Debug, Structural)]
pub enum ReportError {
    /// A brace is missing.
    Missing,
    /// The last closing brace stands before the last opening one.
    Malformed,
}

impl ReportError {
    /// The error in words.
    pub open spec fn text(self) -> Seq<char> {
        match self {
            ReportError::Missing => "Missing JSON in FFmpeg output"@,
            ReportError::Malformed => "Malformed JSON block in FFmpeg output"@,
        }
    }

    /// The error in words.
    pub fn message(self) -> (r: &'static str)
        ensures
            r@ == self.text(),
    {
        match self {
            ReportError::Missing => "Missing JSON in FFmpeg output",
            ReportError::Malformed => "Malformed JSON block in FFmpeg output",
        }
    }
}

/// The report in FFmpeg's diagnostics: what stands from the last opening brace to the last
/// closing one.
pub open spec fn report_in(stderr: Seq<char>) -> Result<Seq<char>, ReportError> {
    match (text::last_at(stderr, '{'), text::last_at(stderr, '}')) {
        (Some(a), Some(b)) => if a >= b {
            Err(ReportError::Malformed)
        } else {
            Ok(stderr.subrange(a as int, b as int + 1))
        },
        _ => Err(ReportError::Missing),
    }
}

/// A report was cut out exactly where there is one.
pub open spec fn report_reads(r: Result<String, ReportError>, stderr: Seq<char>) -> bool {
    match r {
        Ok(t) => report_in(stderr) == Ok::<Seq<char>, ReportError>(t@),
        Err(e) => report_in(stderr) == Err::<Seq<char>, ReportError>(e),
    }
}

/// Cuts the JSON report out of FFmpeg's diagnostics.
pub fn loudnorm_report(stderr: &str) -> (r: Result<String, ReportError>)
    ensures
        report_reads(r, stderr@),
{
    let chars: Vec<char> = text::chars_of(stderr);
    let a: Option<usize> = text::find_last(chars.as_slice(), '{');
    let b: Option<usize> = text::find_last(chars.as_slice(), '}');
    match (a, b) {
        (Some(i), Some(j)) => {
            if i >= j {
                Err(ReportError::Malformed)
            } else {
                let n: usize = chars.len();
                assert(j < n);
                Ok(text::text_between(chars.as_slice(), i, j + 1))
            }
        },
        _ => Err(ReportError::Missing),
    }
}

/// Cuts the report out of the diagnostics of a measurement, or words its failure.
pub fn measured_report(stage: &str, success: bool, stderr: &str) -> (r: Result<String, String>)
    ensures
        !success ==> r is Err && r->Err_0@ == failure_text(stage@, stderr@),
        success ==> match (r, report_in(stderr@)) {
            (Ok(t), Ok(m)) => t@ == m,
            (Err(t), Err(e)) => t@ == e.text(),
            _ => false,
        },
{
    if !success {
        return Err(ffmpeg_failed(stage, stderr));
    }
    match loudnorm_report(stderr) {
        Ok(t) => Ok(t),
        Err(e) => Err(e.message().to_owned()),
    }
}

/// A loudness that normalization can use: finite, and at least -99.
pub open spec fn usable(v: Single) -> bool {
    v.finite() && single::at_most(single::whole(-99), v)
}

/// The loudness if it is usable; `None` also where the report held no number.
pub fn usable_loudness(input_i: Option<Single>) -> (r: Option<Single>)
    ensures
        r == if input_i is Some && usable(input_i->0) {
            input_i
        } else {
            None
        },
{
    match input_i {
        Some(v) => if v.is_finite() && Single::from_i32(-99).le(v) {
            Some(v)
        } else {
            None
        },
        None => None,
    }
}

/// The statistics if the loudness in them, as the number `input_i`, is usable.
pub fn usable_stats(stats: LoudnormStats, input_i: Option<Single>) -> (r: Option<LoudnormStats>)
    ensures
        r == if input_i is Some && usable(input_i->0) {
            Some(stats)
        } else {
            None
        },
{
    match usable_loudness(input_i) {
        Some(_) => Some(stats),
        None => None,
    }
}

/// The first number behind a word `max_volume:`, from word `i` on.
pub open spec fn volume_from_word(w: Seq<Seq<char>>, i: int) -> Option<Seq<char>>
    decreases w.len() - i,
{
    if i < 0 || i + 1 >= w.len() {
        None
    } else if w[i] == "max_volume:"@ && text::is_float_text(w[i + 1]) {
        Some(w[i + 1])
    } else {
        volume_from_word(w, i + 1)
    }
}

/// The first such number in a line about the volume, from line `i` on.
pub open spec fn volume_from_line(lines: Seq<Seq<char>>, i: int) -> Option<Seq<char>>
    decreases lines.len() - i,
{
    if i < 0 || i >= lines.len() {
        None
    } else if text::contains(lines[i], "max_volume:"@) && volume_from_word(
        text::words(lines[i]),
        0,
    ) is Some {
        volume_from_word(text::words(lines[i]), 0)
    } else {
        volume_from_line(lines, i + 1)
    }
}

/// The peak level that the diagnostics of a peak measurement report, as a decimal text.
pub open spec fn max_volume_in(stderr: Seq<char>) -> Option<Seq<char>> {
    volume_from_line(text::pieces(stderr, '\n'), 0)
}

/// Reads the peak level off the diagnostics of a peak measurement.
pub fn parse_max_volume(stderr: &str) -> (r: Option<String>)
    ensures
        match r {
            Some(t) => max_volume_in(stderr@) == Some(t@),
            None => max_volume_in(stderr@) is None,
        },
{
    let chars: Vec<char> = text::chars_of(stderr);
    let lines: Vec<Vec<char>> = text::pieces_of(chars.as_slice(), '\n');
    let needle: Vec<char> = text::chars_of("max_volume:");
    let ghost ls: Seq<Seq<char>> = text::pieces(stderr@, '\n');
    assert(lines@.len() == ls.len());
    let mut i: usize = 0;
    while i < lines.len()
        invariant
            i <= lines@.len(),
            ls == text::char_seqs(lines@),
            ls == text::pieces(stderr@, '\n'),
            needle@ == "max_volume:"@,
            volume_from_line(ls, i as int) == volume_from_line(ls, 0),
        decreases lines@.len() - i,
    {
        assert(ls[i as int] == lines@[i as int]@);
        if text::holds(lines[i].as_slice(), needle.as_slice()) {
            let w: Vec<Vec<char>> = text::words_of(lines[i].as_slice());
            let ghost ws: Seq<Seq<char>> = text::words(ls[i as int]);
            assert(w@.len() == ws.len());
            let mut j: usize = 0;
            while j < w.len() && j + 1 < w.len()
                invariant
                    i < lines@.len(),
                    ls == text::char_seqs(lines@),
                    ls == text::pieces(stderr@, '\n'),
                    needle@ == "max_volume:"@,
                    j <= w@.len(),
                    ws == text::char_seqs(w@),
                    ws == text::words(ls[i as int]),
                    text::contains(ls[i as int], "max_volume:"@),
                    volume_from_word(ws, j as int) == volume_from_word(ws, 0),
                    volume_from_line(ls, i as int) == volume_from_line(ls, 0),
                decreases w@.len() - j,
            {
                assert(ws[j as int] == w@[j as int]@ && ws[j + 1] == w@[j + 1]@);
                if text::same_chars(w[j].as_slice(), needle.as_slice()) && text::float_text(
                    w[j + 1].as_slice(),
                ) {
                    return Some(text::text_of(w[j + 1].as_slice()));
                }
                j = j + 1;
            }
        }
        i = i + 1;
    }
    None
}

/// Reads the peak level off the diagnostics of a peak measurement, or words its failure.
pub fn measured_peak(success: bool, stderr: &str) -> (r: Result<String, String>)
    ensures
        !success ==> r is Err && r->Err_0@ == failure_text("peak measurement"@, stderr@),
        success ==> match (r, max_volume_in(stderr@)) {
            (Ok(t), Some(m)) => t@ == m,
            (Err(t), None) => t@ == "Could not parse max_volume from FFmpeg output"@,
            _ => false,
        },
{
    if !success {
        return Err(ffmpeg_failed("peak measurement", stderr));
    }
    match parse_max_volume(stderr) {
        Some(t) => Ok(t),
        None => Err("Could not parse max_volume from FFmpeg output".to_owned()),
    }
}

// ---------------------------------------------------------------------------
// Laws
// ---------------------------------------------------------------------------

proof fn lemma_first_rate_is_plausible(w: Seq<Seq<char>>, i: int)
    ensures
        first_rate(w, i) matches Some(v) ==> 8_000 <= v <= 192_000,
    decreases w.len() - i,
{
    if 0 <= i && i + 1 < w.len() {
        lemma_first_rate_is_plausible(w, i + 1);
    }
}

/// A probe that could not be run tells no sample rate, and one that was run tells a plausible one
/// or none. Whether the rate alone is read or the duration with it, it is the same rate: what is
/// read depends on the diagnostics of the one run alone.
pub proof fn a_probed_rate_is_plausible(
    stderr: Option<Seq<char>>,
    alone: Option<u32>,
    with_duration: Option<u32>,
)
    requires
        rate_reads(alone, probed_rate(stderr)),
        rate_reads(with_duration, probed_rate(stderr)),
    ensures
        alone == with_duration,
        stderr is None ==> alone is None,
        alone matches Some(v) ==> 8_000 <= v <= 192_000,
{
    if let Some(t) = stderr {
        lemma_first_rate_is_plausible(text::words(t), 0);
    }
}

} // verus!
