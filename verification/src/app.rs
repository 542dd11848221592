//! The state of the window: settings, the log, and how runs and messages change them.

use std::collections::VecDeque;
use vstd::prelude::*;

use crate::fixed;
use crate::proc;
use crate::single;
use crate::single::Single;
use crate::text;
use crate::types::{
    AppMsg, OutputFormat, ProcessingOptions, ReductionProfile, SilencePad, SilenceThreshold,
};
use crate::ui::Icon;

verus! {

// ---------------------------------------------------------------------------
// Sections
// ---------------------------------------------------------------------------

/// The sections of the navigation rail, in the order in which the audio travels.
#[derive(Clone, Copy, PartialEq, Eq, Debug, Structural)]
pub enum Section {
    Files,
    CleanUp,
    Loudness,
    Logs,
}

impl Default for Section {
    fn default() -> (r: Self)
        ensures
            r == Section::Files,
    {
        Section::Files
    }
}

impl Section {
    /// The heading.
    pub open spec fn title_text(self) -> Seq<char> {
        match self {
            Section::Files => "Files"@,
            Section::CleanUp => "Clean up"@,
            Section::Loudness => "Loudness"@,
            Section::Logs => "Logs"@,
        }
    }

    /// The explanation under the heading.
    pub open spec fn description_text(self) -> Seq<char> {
        match self {
            Section::Files => "Every audio file under the source folder is processed, and the folder tree is recreated inside the output folder in the format chosen here. Trimming the silence off each take is here too \u{2014} it needs nothing from Clean up."@,
            Section::CleanUp => "De-ess \u{2192} dereverb \u{2192} expand \u{2192} denoise \u{2192} voice EQ \u{2192} compress. The whole chain runs before loudness normalization."@,
            Section::Loudness => "Two-pass EBU R128, with a padded measurement for files under 3 seconds and peak normalization as a last resort."@,
            Section::Logs => "One line per file, plus anything that went wrong."@,
        }
    }

    /// Heading shown at the top of the content pane.
    pub fn title(self) -> (r: &'static str)
        ensures
            r@ == self.title_text(),
    {
        match self {
            Section::Files => "Files",
            Section::CleanUp => "Clean up",
            Section::Loudness => "Loudness",
            Section::Logs => "Logs",
        }
    }

    /// The explanation under the heading.
    pub fn description(self) -> (r: &'static str)
        ensures
            r@ == self.description_text(),
    {
        match self {
            Section::Files => "Every audio file under the source folder is processed, and the folder tree is recreated inside the output folder in the format chosen here. Trimming the silence off each take is here too \u{2014} it needs nothing from Clean up.",
            Section::CleanUp => "De-ess \u{2192} dereverb \u{2192} expand \u{2192} denoise \u{2192} voice EQ \u{2192} compress. The whole chain runs before loudness normalization.",
            Section::Loudness => "Two-pass EBU R128, with a padded measurement for files under 3 seconds and peak normalization as a last resort.",
            Section::Logs => "One line per file, plus anything that went wrong.",
        }
    }

    /// The glyph of the section in the rail.
    pub fn icon(self) -> (r: Icon)
        ensures
            r == match self {
                Section::Files => Icon::Folder,
                Section::CleanUp => Icon::Wave,
                Section::Loudness => Icon::Bars,
                Section::Logs => Icon::List,
            },
    {
        match self {
            Section::Files => Icon::Folder,
            Section::CleanUp => Icon::Wave,
            Section::Loudness => Icon::Bars,
            Section::Logs => Icon::List,
        }
    }
}

/// How a summary is coloured.
#[derive(Clone, Copy, PartialEq, Eq, Debug, Structural)]
pub enum Tone {
    /// A setting at rest.
    Muted,
    /// Something that will stop the run.
    Amber,
    /// Errors.
    Red,
}

// ---------------------------------------------------------------------------
// State
// ---------------------------------------------------------------------------

/// The most log lines that are kept.
pub const MAX_LOG_LINES: usize = 5_000;

/// The most characters of a log line that are kept.
pub const MAX_LOG_LINE_CHARS: usize = 2_000;

/// The state of the window.
pub struct AudioBatchApp {
    pub input_dir: String,
    pub output_dir: String,
    pub normalize_volume: bool,
    pub target_lufs: Single,
    /// Target peak in dBFS, for where no loudness measurement works out.
    pub target_peak_dbfs: Single,
    pub automixer: bool,
    pub automixer_spectral_gate: bool,
    pub automixer_nn_dereverb: bool,
    pub automixer_dfn3_dereverb: bool,
    pub automixer_dfn3_mix: Single,
    pub automixer_dfn3_postfilter: bool,
    pub automixer_expander: bool,
    pub automixer_expander_safety_pct: Single,
    pub automixer_expander_reduction_profile: ReductionProfile,
    pub trim_silence: bool,
    pub output_format: OutputFormat,
    pub bitrate_kbps: u32,
    pub is_processing: bool,
    pub is_analyzing: bool,
    pub average_lufs: Option<Single>,
    pub logs: VecDeque<String>,
    pub current_progress: usize,
    pub total_files: usize,
    /// Why FFmpeg was not found, if it was not.
    pub ffmpeg_error: Option<String>,
    /// The section that the content pane shows.
    pub section: Section,
    /// The pane has switched to the log for the present run.
    pub followed_run: bool,
    /// How many of the retained log lines are errors.
    pub error_count: usize,
}

/// The settings.
pub struct Settings {
    pub input_dir: String,
    pub output_dir: String,
    pub normalize_volume: bool,
    pub target_lufs: Single,
    pub target_peak_dbfs: Single,
    pub automixer: bool,
    pub automixer_spectral_gate: bool,
    pub automixer_nn_dereverb: bool,
    pub automixer_dfn3_dereverb: bool,
    pub automixer_dfn3_mix: Single,
    pub automixer_dfn3_postfilter: bool,
    pub automixer_expander: bool,
    pub automixer_expander_safety_pct: Single,
    pub automixer_expander_reduction_profile: ReductionProfile,
    pub trim_silence: bool,
    pub output_format: OutputFormat,
    pub bitrate_kbps: u32,
    pub ffmpeg_error: Option<String>,
}

/// What runs and messages change.
pub struct RunModel {
    pub is_processing: bool,
    pub is_analyzing: bool,
    pub average_lufs: Option<Single>,
    pub logs: Seq<Seq<char>>,
    pub current_progress: usize,
    pub total_files: usize,
}

/// A log line is an error.
pub open spec fn is_error(line: Seq<char>) -> bool {
    proc::starts_with(line, "[ERROR]"@)
}

/// How many of the lines are errors.
pub open spec fn errors_in(lines: Seq<Seq<char>>) -> nat
    decreases lines.len(),
{
    if lines.len() == 0 {
        0
    } else {
        errors_in(lines.drop_last()) + if is_error(lines.last()) {
            1nat
        } else {
            0nat
        }
    }
}

/// A text as a log line: cut off if it is too long.
pub open spec fn as_log_line(t: Seq<char>) -> Seq<char> {
    if t.len() > MAX_LOG_LINE_CHARS {
        t.take(MAX_LOG_LINE_CHARS as int) + "... [truncated]"@
    } else {
        t
    }
}

/// The log with one more line; the oldest line goes where there is no room.
pub open spec fn logged(lines: Seq<Seq<char>>, t: Seq<char>) -> Seq<Seq<char>> {
    (if lines.len() >= MAX_LOG_LINES {
        lines.skip(1)
    } else {
        lines
    }).push(as_log_line(t))
}

/// The state after a message.
pub open spec fn received(r: RunModel, m: AppMsg) -> RunModel {
    match m {
        AppMsg::Log(t) => RunModel { logs: logged(r.logs, t@), ..r },
        AppMsg::Error(t) => RunModel { logs: logged(r.logs, "[ERROR] "@ + t@), ..r },
        AppMsg::Progress(current, total) => RunModel {
            current_progress: if r.current_progress > current {
                r.current_progress
            } else {
                current
            },
            total_files: total,
            ..r
        },
        AppMsg::Finished => RunModel { is_processing: false, is_analyzing: false, ..r },
        AppMsg::Stopped => RunModel { is_processing: false, is_analyzing: false, ..r },
        AppMsg::AnalysisResult(avg) => RunModel { average_lufs: Some(avg), ..r },
    }
}

/// The state after the messages, one after the other.
pub open spec fn received_all(r: RunModel, ms: Seq<AppMsg>) -> RunModel
    decreases ms.len(),
{
    if ms.len() == 0 {
        r
    } else {
        received(received_all(r, ms.drop_last()), ms.last())
    }
}

impl AudioBatchApp {
    /// The settings.
    pub open spec fn settings(self) -> Settings {
        Settings {
            input_dir: self.input_dir,
            output_dir: self.output_dir,
            normalize_volume: self.normalize_volume,
            target_lufs: self.target_lufs,
            target_peak_dbfs: self.target_peak_dbfs,
            automixer: self.automixer,
            automixer_spectral_gate: self.automixer_spectral_gate,
            automixer_nn_dereverb: self.automixer_nn_dereverb,
            automixer_dfn3_dereverb: self.automixer_dfn3_dereverb,
            automixer_dfn3_mix: self.automixer_dfn3_mix,
            automixer_dfn3_postfilter: self.automixer_dfn3_postfilter,
            automixer_expander: self.automixer_expander,
            automixer_expander_safety_pct: self.automixer_expander_safety_pct,
            automixer_expander_reduction_profile: self.automixer_expander_reduction_profile,
            trim_silence: self.trim_silence,
            output_format: self.output_format,
            bitrate_kbps: self.bitrate_kbps,
            ffmpeg_error: self.ffmpeg_error,
        }
    }

    /// The lines of the log.
    pub open spec fn lines(self) -> Seq<Seq<char>> {
        text::texts(self.logs@)
    }

    /// What runs and messages change. The count of errors is not among it: it is that of the
    /// lines, as [`AudioBatchApp::wf`] says.
    pub open spec fn run(self) -> RunModel {
        RunModel {
            is_processing: self.is_processing,
            is_analyzing: self.is_analyzing,
            average_lufs: self.average_lufs,
            logs: self.lines(),
            current_progress: self.current_progress,
            total_files: self.total_files,
        }
    }

    /// The log is within its bounds, and its errors are counted.
    pub open spec fn wf(self) -> bool {
        &&& self.logs@.len() <= MAX_LOG_LINES
        &&& self.error_count == errors_in(self.lines())
    }

    /// What is neither a setting nor changed by runs and messages.
    pub open spec fn view_state(self) -> (Section, bool) {
        (self.section, self.followed_run)
    }

    /// The window as it opens.
    pub fn new() -> (app: AudioBatchApp)
        ensures
            app.wf(),
            app.settings().input_dir@ == Seq::<char>::empty(),
            app.settings().output_dir@ == Seq::<char>::empty(),
            !app.normalize_volume,
            app.target_lufs == single::whole(-14),
            app.options() == ProcessingOptions::initial(),
            app.ffmpeg_error is None,
            app.run() == (RunModel {
                is_processing: false,
                is_analyzing: false,
                average_lufs: None,
                logs: Seq::empty(),
                current_progress: 0,
                total_files: 0,
            }),
            app.view_state() == (Section::Files, false),
    {
        let app: AudioBatchApp = AudioBatchApp {
            input_dir: String::new(),
            output_dir: String::new(),
            normalize_volume: false,
            target_lufs: Single::from_i32(-14),
            target_peak_dbfs: Single::from_i32(-3),
            automixer: false,
            automixer_spectral_gate: false,
            automixer_nn_dereverb: false,
            automixer_dfn3_dereverb: false,
            automixer_dfn3_mix: Single::from_i32(80),
            automixer_dfn3_postfilter: false,
            automixer_expander: false,
            automixer_expander_safety_pct: Single::from_i32(50),
            automixer_expander_reduction_profile: ReductionProfile::Recommended,
            trim_silence: false,
            output_format: OutputFormat::AdpcmWav,
            bitrate_kbps: 128,
            is_processing: false,
            is_analyzing: false,
            average_lufs: None,
            logs: VecDeque::new(),
            current_progress: 0,
            total_files: 0,
            ffmpeg_error: None,
            section: Section::Files,
            followed_run: false,
            error_count: 0,
        };
        assert(app.lines() =~= Seq::<Seq<char>>::empty());
        app
    }

    /// The window as it opens after looking for FFmpeg: a failure is logged and kept.
    pub fn from_ffmpeg_lookup(found: Result<(), String>) -> (app: AudioBatchApp)
        ensures
            app.wf(),
            app.settings().input_dir@ == Seq::<char>::empty(),
            app.settings().output_dir@ == Seq::<char>::empty(),
            !app.normalize_volume,
            app.target_lufs == single::whole(-14),
            app.options() == ProcessingOptions::initial(),
            app.view_state() == (Section::Files, false),
            match found {
                Ok(_) => app.ffmpeg_error is None,
                Err(m) => app.ffmpeg_error is Some && app.ffmpeg_error->0@ == m@,
            },
            app.run() == (RunModel {
                is_processing: false,
                is_analyzing: false,
                average_lufs: None,
                logs: match found {
                    Ok(_) => Seq::empty(),
                    Err(m) => seq![as_log_line("[ERROR] "@ + m@)],
                },
                current_progress: 0,
                total_files: 0,
            }),
    {
        let mut app: AudioBatchApp = AudioBatchApp::new();
        match found {
            Ok(_) => {},
            Err(m) => {
                app.push_log(text::joined("[ERROR] ", m.as_str()));
                assert(app.lines() =~= seq![as_log_line("[ERROR] "@ + m@)]);
                app.ffmpeg_error = Some(m);
            },
        }
        app
    }

    /// Appends one line to the log, cutting it off if it is too long, and dropping the oldest
    /// line where there is no room.
    pub fn push_log(&mut self, t: String)
        requires
            old(self).wf(),
        ensures
            final(self).wf(),
            final(self).settings() == old(self).settings(),
            final(self).view_state() == old(self).view_state(),
            final(self).run() == (RunModel { logs: logged(old(self).lines(), t@), ..old(self).run() }),
    {
        push_line(&mut self.logs, &mut self.error_count, t);
    }

    /// Takes one message in.
    #[verifier::spinoff_prover]
    pub fn handle_message(&mut self, m: AppMsg)
        requires
            old(self).wf(),
        ensures
            final(self).wf(),
            final(self).settings() == old(self).settings(),
            final(self).view_state() == old(self).view_state(),
            final(self).run() == received(old(self).run(), m),
    {
        match m {
            AppMsg::Log(t) => self.push_log(t),
            AppMsg::Error(t) => self.push_log(text::joined("[ERROR] ", t.as_str())),
            AppMsg::Progress(current, total) => self.progressed(current, total),
            AppMsg::Finished => self.ended(),
            AppMsg::Stopped => self.ended(),
            AppMsg::AnalysisResult(avg) => {
                self.average_lufs = Some(avg);
            },
        }
    }

    fn progressed(&mut self, current: usize, total: usize)
        requires
            old(self).wf(),
        ensures
            final(self).wf(),
            final(self).settings() == old(self).settings(),
            final(self).view_state() == old(self).view_state(),
            final(self).run() == received(old(self).run(), AppMsg::Progress(current, total)),
    {
        if self.current_progress < current {
            self.current_progress = current;
        }
        self.total_files = total;
    }

    fn ended(&mut self)
        requires
            old(self).wf(),
        ensures
            final(self).wf(),
            final(self).settings() == old(self).settings(),
            final(self).view_state() == old(self).view_state(),
            final(self).run() == received(old(self).run(), AppMsg::Finished),
    {
        self.is_processing = false;
        self.is_analyzing = false;
    }

    /// Takes the messages in, in their order.
    pub fn handle_messages(&mut self, messages: Vec<AppMsg>)
        requires
            old(self).wf(),
        ensures
            final(self).wf(),
            final(self).settings() == old(self).settings(),
            final(self).view_state() == old(self).view_state(),
            final(self).run() == received_all(old(self).run(), messages@),
    {
        let ghost start: RunModel = self.run();
        for m in it: messages
            invariant
                it.seq() == messages@,
                self.wf(),
                self.settings() == old(self).settings(),
                self.view_state() == old(self).view_state(),
                self.run() == received_all(start, messages@.take(it.index() as int)),
        {
            assert(messages@.take(it.index() as int + 1).drop_last() =~= messages@.take(
                it.index() as int,
            ));
            self.handle_message(m);
        }
        assert(messages@.take(messages@.len() as int) =~= messages@);
    }
}

/// Whether a text is an error line.
fn error_line(t: &str) -> (r: bool)
    ensures
        r == is_error(t@),
{
    let tag: Vec<char> = text::chars_of("[ERROR]");
    let chars: Vec<char> = text::chars_of(t);
    proc::begins_with(chars.as_slice(), tag.as_slice())
}

/// A text as a log line.
fn log_line(t: String) -> (r: String)
    ensures
        r@ == as_log_line(t@),
{
    let chars: Vec<char> = text::chars_of(t.as_str());
    if chars.len() > MAX_LOG_LINE_CHARS {
        let mut cut: String = text::text_between(chars.as_slice(), 0, MAX_LOG_LINE_CHARS);
        assert(cut@ =~= t@.take(MAX_LOG_LINE_CHARS as int));
        cut.append("... [truncated]");
        cut
    } else {
        t
    }
}

/// Appends one line to a log whose errors are counted.
fn push_line(logs: &mut VecDeque<String>, error_count: &mut usize, t: String)
    requires
        old(logs)@.len() <= MAX_LOG_LINES,
        *old(error_count) == errors_in(text::texts(old(logs)@)),
    ensures
        final(logs)@.len() <= MAX_LOG_LINES,
        *final(error_count) == errors_in(text::texts(final(logs)@)),
        text::texts(final(logs)@) == logged(text::texts(old(logs)@), t@),
{
    let ghost before: Seq<Seq<char>> = text::texts(logs@);
    let line: String = log_line(t);
    if logs.len() >= MAX_LOG_LINES {
        let gone: Option<String> = logs.pop_front();
        proof {
            assert(text::texts(logs@) =~= before.skip(1));
            lemma_errors_without_first(before);
        }
        if let Some(g) = gone {
            assert(g@ == before[0]);
            if error_line(g.as_str()) {
                *error_count = *error_count - 1;
            }
        }
    }
    let ghost kept: Seq<Seq<char>> = text::texts(logs@);
    proof {
        lemma_errors_bound(kept);
    }
    let ghost shown: Seq<char> = line@;
    if error_line(line.as_str()) {
        *error_count = *error_count + 1;
    }
    logs.push_back(line);
    proof {
        assert(text::texts(logs@) =~= kept.push(shown));
        assert(text::texts(logs@).drop_last() =~= kept);
    }
}

proof fn lemma_errors_bound(lines: Seq<Seq<char>>)
    ensures
        errors_in(lines) <= lines.len(),
    decreases lines.len(),
{
    if lines.len() > 0 {
        lemma_errors_bound(lines.drop_last());
    }
}

proof fn lemma_errors_without_first(lines: Seq<Seq<char>>)
    requires
        lines.len() > 0,
    ensures
        errors_in(lines) == errors_in(lines.skip(1)) + if is_error(lines[0]) {
            1nat
        } else {
            0nat
        },
    decreases lines.len(),
{
    if lines.len() == 1 {
        assert(lines.drop_last() =~= Seq::<Seq<char>>::empty());
        assert(lines.skip(1) =~= Seq::<Seq<char>>::empty());
        assert(errors_in(Seq::<Seq<char>>::empty()) == 0);
    } else {
        lemma_errors_without_first(lines.drop_last());
        assert(lines.skip(1).drop_last() =~= lines.drop_last().skip(1));
        assert(lines.skip(1).last() == lines.last());
    }
}

// ---------------------------------------------------------------------------
// Options
// ---------------------------------------------------------------------------

impl AudioBatchApp {
    /// The settings as the workers take them.
    pub open spec fn options(self) -> ProcessingOptions {
        ProcessingOptions {
            target_lufs: if self.normalize_volume {
                Some(self.target_lufs)
            } else {
                None
            },
            target_peak_dbfs: self.target_peak_dbfs,
            automixer: self.automixer,
            automixer_spectral_gate: self.automixer_spectral_gate,
            automixer_nn_dereverb: self.automixer_nn_dereverb,
            automixer_dfn3_dereverb: self.automixer_dfn3_dereverb,
            automixer_dfn3_mix: self.automixer_dfn3_mix,
            automixer_dfn3_postfilter: self.automixer_dfn3_postfilter,
            automixer_expander: self.automixer_expander,
            automixer_expander_safety_pct: self.automixer_expander_safety_pct,
            automixer_expander_reduction_profile: self.automixer_expander_reduction_profile,
            trim_silence: self.trim_silence,
            trim_silence_threshold: SilenceThreshold::Recommended,
            trim_silence_pad: SilencePad::Tight,
            output_format: self.output_format,
            bitrate_kbps: self.bitrate_kbps,
        }
    }

    /// Snapshots the settings for the workers.
    pub fn processing_options(&self) -> (r: ProcessingOptions)
        ensures
            r == self.options(),
    {
        ProcessingOptions {
            target_lufs: if self.normalize_volume {
                Some(self.target_lufs)
            } else {
                None
            },
            target_peak_dbfs: self.target_peak_dbfs,
            automixer: self.automixer,
            automixer_spectral_gate: self.automixer_spectral_gate,
            automixer_nn_dereverb: self.automixer_nn_dereverb,
            automixer_dfn3_dereverb: self.automixer_dfn3_dereverb,
            automixer_dfn3_mix: self.automixer_dfn3_mix,
            automixer_dfn3_postfilter: self.automixer_dfn3_postfilter,
            automixer_expander: self.automixer_expander,
            automixer_expander_safety_pct: self.automixer_expander_safety_pct,
            automixer_expander_reduction_profile: self.automixer_expander_reduction_profile,
            trim_silence: self.trim_silence,
            trim_silence_threshold: SilenceThreshold::Recommended,
            trim_silence_pad: SilencePad::Tight,
            output_format: self.output_format,
            bitrate_kbps: self.bitrate_kbps,
        }
    }

    /// The segment of the noise reduction that is selected: none, the spectral gate, or
    /// nnnoiseless.
    pub open spec fn noise_choice(self) -> nat {
        if self.automixer_spectral_gate {
            1
        } else if self.automixer_nn_dereverb {
            2
        } else {
            0
        }
    }

    /// The segment of the noise reduction that is selected.
    pub fn noise_reduction(&self) -> (r: usize)
        ensures
            r == self.noise_choice(),
    {
        if self.automixer_spectral_gate {
            1
        } else if self.automixer_nn_dereverb {
            2
        } else {
            0
        }
    }

    /// Selects a segment of the noise reduction; at most one algorithm is on afterwards.
    pub fn choose_noise_reduction(&mut self, segment: usize)
        requires
            old(self).wf(),
        ensures
            final(self).wf(),
            final(self).automixer_spectral_gate == (segment == 1),
            final(self).automixer_nn_dereverb == (segment == 2),
            segment < 3 ==> final(self).noise_choice() == segment,
            final(self).run() == old(self).run(),
            final(self).view_state() == old(self).view_state(),
            final(self).settings() == (Settings {
                automixer_spectral_gate: segment == 1,
                automixer_nn_dereverb: segment == 2,
                ..old(self).settings()
            }),
            final(self).settings() == noise_chosen(old(self).settings(), segment),
    {
        self.automixer_spectral_gate = segment == 1;
        self.automixer_nn_dereverb = segment == 2;
    }

    /// Takes the measured average, rounded, for the target.
    pub fn set_target_to_average(&mut self)
        requires
            old(self).wf(),
        ensures
            final(self).wf(),
            final(self).run() == old(self).run(),
            final(self).view_state() == old(self).view_state(),
            final(self).settings() == (Settings {
                target_lufs: match old(self).average_lufs {
                    Some(avg) => single::rounded_whole(avg),
                    None => old(self).target_lufs,
                },
                ..old(self).settings()
            }),
            final(self).target_lufs == target_from(old(self).average_lufs, old(self).target_lufs),
    {
        if let Some(avg) = self.average_lufs {
            self.target_lufs = avg.round();
        }
    }
}

// ---------------------------------------------------------------------------
// Runs
// ---------------------------------------------------------------------------

/// A run once a start was asked for, given what checking the folders came to.
pub open spec fn on_start(r: RunModel, folders: Result<(), String>) -> RunModel {
    if r.is_processing || r.is_analyzing {
        r
    } else {
        match folders {
            Err(m) => RunModel { logs: logged(r.logs, "[ERROR] "@ + m@), ..r },
            Ok(_) => RunModel {
                is_processing: true,
                logs: Seq::empty(),
                current_progress: 0,
                total_files: 0,
                ..r
            },
        }
    }
}

/// A run once the analysis of a folder was asked for, if one was picked.
pub open spec fn on_analysis(r: RunModel, folder: Option<Seq<char>>) -> RunModel {
    if r.is_processing || r.is_analyzing {
        r
    } else {
        match folder {
            None => r,
            Some(f) => RunModel {
                is_analyzing: true,
                average_lufs: None,
                current_progress: 0,
                total_files: 0,
                logs: logged(r.logs, "Started folder analysis: "@ + f),
                ..r
            },
        }
    }
}

/// A run once the user asked for a stop.
pub open spec fn on_stop(r: RunModel) -> RunModel {
    RunModel { logs: logged(r.logs, "Stop requested \u{2014} finishing up..."@), ..r }
}

/// The section that is shown, and whether it has followed a run, once it is known whether one is
/// under way.
pub open spec fn followed(state: (Section, bool), busy: bool) -> (Section, bool) {
    (
        if busy && !state.1 {
            Section::Logs
        } else {
            state.0
        },
        busy,
    )
}

/// The settings once a noise reduction was chosen: none, the spectral gate or the denoiser.
pub open spec fn noise_chosen(s: Settings, segment: usize) -> Settings {
    Settings { automixer_spectral_gate: segment == 1, automixer_nn_dereverb: segment == 2, ..s }
}

/// The target once the measured average was asked for.
pub open spec fn target_from(average: Option<Single>, target: Single) -> Single {
    match average {
        Some(avg) => single::rounded_whole(avg),
        None => target,
    }
}

impl AudioBatchApp {
    /// A run or an analysis is under way.
    pub open spec fn busy(self) -> bool {
        self.is_processing || self.is_analyzing
    }

    /// Starts a run, given what checking the folders came to. Does nothing while another is
    /// under way; a complaint about the folders is logged instead. Tells whether it started.
    pub fn start_processing(&mut self, folders: Result<(), String>) -> (started: bool)
        requires
            old(self).wf(),
        ensures
            final(self).wf(),
            final(self).settings() == old(self).settings(),
            final(self).view_state() == old(self).view_state(),
            started == (!old(self).busy() && folders is Ok),
            old(self).busy() ==> final(self).run() == old(self).run(),
            !old(self).busy() ==> match folders {
                Err(m) => final(self).run() == (RunModel {
                    logs: logged(old(self).lines(), "[ERROR] "@ + m@),
                    ..old(self).run()
                }),
                Ok(_) => final(self).run() == (RunModel {
                    is_processing: true,
                    logs: Seq::empty(),
                    current_progress: 0,
                    total_files: 0,
                    ..old(self).run()
                }),
            },
            final(self).run() == on_start(old(self).run(), folders),
    {
        if self.is_processing || self.is_analyzing {
            return false;
        }
        match folders {
            Err(m) => {
                self.push_log(text::joined("[ERROR] ", m.as_str()));
                false
            },
            Ok(_) => {
                self.is_processing = true;
                self.logs.clear();
                self.error_count = 0;
                self.current_progress = 0;
                self.total_files = 0;
                assert(self.lines() =~= Seq::<Seq<char>>::empty());
                true
            },
        }
    }

    /// Starts the analysis of a folder, if one was picked. Does nothing while a run is under
    /// way. Tells whether it started. The log of the last run is kept.
    pub fn start_analysis(&mut self, folder: Option<&str>) -> (started: bool)
        requires
            old(self).wf(),
        ensures
            final(self).wf(),
            final(self).settings() == old(self).settings(),
            final(self).view_state() == old(self).view_state(),
            started == (!old(self).busy() && folder is Some),
            !started ==> final(self).run() == old(self).run(),
            started ==> final(self).run() == (RunModel {
                is_analyzing: true,
                average_lufs: None,
                current_progress: 0,
                total_files: 0,
                logs: logged(old(self).lines(), "Started folder analysis: "@ + folder->0@),
                ..old(self).run()
            }),
            final(self).run() == on_analysis(
                old(self).run(),
                match folder {
                    Some(f) => Some(f@),
                    None => None,
                },
            ),
    {
        if self.is_processing || self.is_analyzing {
            return false;
        }
        match folder {
            None => false,
            Some(f) => {
                self.is_analyzing = true;
                self.average_lufs = None;
                self.current_progress = 0;
                self.total_files = 0;
                self.push_log(text::joined("Started folder analysis: ", f));
                true
            },
        }
    }

    /// Logs that the user asked for a stop.
    pub fn stop_requested(&mut self)
        requires
            old(self).wf(),
        ensures
            final(self).wf(),
            final(self).settings() == old(self).settings(),
            final(self).view_state() == old(self).view_state(),
            final(self).run() == (RunModel {
                logs: logged(
                    old(self).lines(),
                    "Stop requested \u{2014} finishing up..."@,
                ),
                ..old(self).run()
            }),
            final(self).run() == on_stop(old(self).run()),
    {
        self.push_log("Stop requested \u{2014} finishing up...".to_owned());
    }

    /// Shows the log when a run starts, once per run: afterwards the user is free to navigate
    /// away.
    pub fn follow_run(&mut self)
        requires
            old(self).wf(),
        ensures
            final(self).wf(),
            final(self).settings() == old(self).settings(),
            final(self).run() == old(self).run(),
            final(self).followed_run == old(self).busy(),
            final(self).section == if old(self).busy() && !old(self).followed_run {
                Section::Logs
            } else {
                old(self).section
            },
            final(self).view_state() == followed(old(self).view_state(), old(self).busy()),
    {
        if self.is_processing || self.is_analyzing {
            if !self.followed_run {
                self.section = Section::Logs;
                self.followed_run = true;
            }
        } else {
            self.followed_run = false;
        }
    }

    /// Whether the controls of the section that is shown can be used: while a batch runs, only
    /// those of the log.
    pub fn section_enabled(&self) -> (r: bool)
        ensures
            r == (!self.is_processing || self.section == Section::Logs),
    {
        !self.is_processing || self.section == Section::Logs
    }

    /// Whether a run can be started: both folders are chosen.
    pub fn can_start(&self) -> (r: bool)
        ensures
            r == (self.input_dir@.len() > 0 && self.output_dir@.len() > 0),
    {
        !self.input_dir.as_str().is_empty() && !self.output_dir.as_str().is_empty()
    }

    /// What is under way.
    pub fn activity(&self) -> (r: &'static str)
        ensures
            r@ == if self.is_analyzing {
                "Analyzing"@
            } else {
                "Processing"@
            },
    {
        if self.is_analyzing {
            "Analyzing"
        } else {
            "Processing"
        }
    }

    /// The progress, from 0 to 1.
    pub open spec fn progress(self) -> Single {
        if self.total_files > 0 {
            single::quotient(
                single::whole(self.current_progress as int),
                single::whole(self.total_files as int),
            )
        } else {
            single::whole(0)
        }
    }

    /// The progress, from 0 to 1.
    pub fn progress_fraction(&self) -> (r: Single)
        ensures
            r == self.progress(),
    {
        if self.total_files > 0 {
            Single::from_u64(self.current_progress as u64).over(
                Single::from_u64(self.total_files as u64),
            )
        } else {
            Single::from_i32(0)
        }
    }

    /// The progress in percent.
    pub fn progress_percent(&self) -> (r: String)
        ensures
            r@ == fixed::fixed(single::product(self.progress(), single::whole(100)), 0) + "%"@,
    {
        percent(self.progress_fraction().times(Single::from_i32(100)))
    }

    /// How many files are done, of how many.
    pub fn progress_count(&self) -> (r: String)
        ensures
            r@ == text::decimal(self.current_progress as nat) + " / "@ + text::decimal(
                self.total_files as nat,
            ) + " files"@,
    {
        let mut r: String = text::decimal_text(self.current_progress as u128);
        let total: String = text::decimal_text(self.total_files as u128);
        r.append(" / ");
        r.append(total.as_str());
        r.append(" files");
        r
    }
}

/// A whole percentage.
pub fn percent(v: Single) -> (r: String)
    ensures
        r@ == fixed::fixed(v, 0) + "%"@,
{
    let mut r: String = fixed::fixed_text(v, 0);
    r.append("%");
    r
}

// ---------------------------------------------------------------------------
// Summaries
// ---------------------------------------------------------------------------

/// A short label for a format.
pub open spec fn format_short_text(format: OutputFormat, bitrate: u32) -> Seq<char> {
    match format {
        OutputFormat::AdpcmWav => "ADPCM"@,
        OutputFormat::Pcm16Wav => "PCM 16"@,
        OutputFormat::Pcm24Wav => "PCM 24"@,
        OutputFormat::Flac => "FLAC"@,
        OutputFormat::Mp3 => "MP3 "@ + text::decimal(bitrate as nat) + "k"@,
        OutputFormat::Ogg => "OGG "@ + text::decimal(bitrate as nat) + "k"@,
    }
}

/// A short label for a format.
pub fn format_short(format: OutputFormat, bitrate: u32) -> (r: String)
    ensures
        r@ == format_short_text(format, bitrate),
{
    match format {
        OutputFormat::AdpcmWav => "ADPCM".to_owned(),
        OutputFormat::Pcm16Wav => "PCM 16".to_owned(),
        OutputFormat::Pcm24Wav => "PCM 24".to_owned(),
        OutputFormat::Flac => "FLAC".to_owned(),
        OutputFormat::Mp3 => {
            let rate: String = text::decimal_text(bitrate as u128);
            let mut r: String = text::joined("MP3 ", rate.as_str());
            r.append("k");
            r
        },
        OutputFormat::Ogg => {
            let rate: String = text::decimal_text(bitrate as u128);
            let mut r: String = text::joined("OGG ", rate.as_str());
            r.append("k");
            r
        },
    }
}

impl AudioBatchApp {
    /// How many stages the clean-up has: what is switched on, and the fixed one.
    pub open spec fn stage_count(self) -> nat {
        1 + (if self.automixer_dfn3_dereverb {
            1nat
        } else {
            0nat
        }) + (if self.automixer_expander {
            1nat
        } else {
            0nat
        }) + (if self.automixer_spectral_gate || self.automixer_nn_dereverb {
            1nat
        } else {
            0nat
        })
    }

    /// The summary of the files: what would stop a run first, else the format and the trim.
    pub fn summary_files(&self) -> (r: (String, Tone))
        ensures
            self.input_dir@.len() == 0 || self.output_dir@.len() == 0 ==> r.0@ == "not set"@
                && r.1 == Tone::Amber,
            self.input_dir@.len() > 0 && self.output_dir@.len() > 0 ==> r.1 == Tone::Muted && r.0@
                == format_short_text(self.output_format, self.bitrate_kbps) + if self.trim_silence {
                " + trim"@
            } else {
                Seq::<char>::empty()
            },
    {
        if !self.can_start() {
            return ("not set".to_owned(), Tone::Amber);
        }
        let mut f: String = format_short(self.output_format, self.bitrate_kbps);
        if self.trim_silence {
            f.append(" + trim");
        }
        assert(f@ =~= format_short_text(self.output_format, self.bitrate_kbps)
            + if self.trim_silence {
            " + trim"@
        } else {
            Seq::<char>::empty()
        });
        (f, Tone::Muted)
    }

    /// The summary of the clean-up.
    pub fn summary_cleanup(&self) -> (r: (String, Tone))
        ensures
            r.1 == Tone::Muted,
            r.0@ == if self.automixer {
                text::decimal(self.stage_count()) + " stages"@
            } else {
                "off"@
            },
    {
        if !self.automixer {
            return ("off".to_owned(), Tone::Muted);
        }
        let mut n: u128 = 1;
        if self.automixer_dfn3_dereverb {
            n = n + 1;
        }
        if self.automixer_expander {
            n = n + 1;
        }
        if self.automixer_spectral_gate || self.automixer_nn_dereverb {
            n = n + 1;
        }
        let mut s: String = text::decimal_text(n);
        s.append(" stages");
        (s, Tone::Muted)
    }

    /// The summary of the loudness.
    pub fn summary_loudness(&self) -> (r: (String, Tone))
        ensures
            r.1 == Tone::Muted,
            r.0@ == if self.normalize_volume {
                fixed::fixed(self.target_lufs, 1)
            } else {
                "off"@
            },
    {
        if self.normalize_volume {
            (fixed::fixed_text(self.target_lufs, 1), Tone::Muted)
        } else {
            ("off".to_owned(), Tone::Muted)
        }
    }

    /// The summary of the log: its errors, else its lines, else nothing.
    pub fn summary_logs(&self) -> (r: (String, Tone))
        ensures
            self.error_count > 0 ==> r.1 == Tone::Red && r.0@ == text::decimal(
                self.error_count as nat,
            ) + if self.error_count == 1 {
                " error"@
            } else {
                " errors"@
            },
            self.error_count == 0 ==> r.1 == Tone::Muted && r.0@ == if self.logs@.len() == 0 {
                Seq::<char>::empty()
            } else {
                text::decimal(self.logs@.len())
            },
    {
        if self.error_count > 0 {
            let mut s: String = text::decimal_text(self.error_count as u128);
            if self.error_count == 1 {
                s.append(" error");
            } else {
                s.append(" errors");
            }
            (s, Tone::Red)
        } else if self.logs.len() == 0 {
            (String::new(), Tone::Muted)
        } else {
            (text::decimal_text(self.logs.len() as u128), Tone::Muted)
        }
    }

    /// The modules of the clean-up, by name.
    pub open spec fn modules(self) -> Seq<char> {
        (if self.automixer_dfn3_dereverb {
            "dereverb, "@
        } else {
            Seq::<char>::empty()
        }) + (if self.automixer_expander {
            "expander, "@
        } else {
            Seq::<char>::empty()
        }) + (if self.automixer_spectral_gate {
            "spectral gate, "@
        } else {
            Seq::<char>::empty()
        }) + (if self.automixer_nn_dereverb {
            "nnnoiseless, "@
        } else {
            Seq::<char>::empty()
        }) + "voice EQ"@
    }

    /// What stands between two parts of the recipe.
    pub open spec fn dot() -> Seq<char> {
        "   \u{b7}   "@
    }

    /// The whole configuration on one line.
    pub open spec fn recipe_text(self) -> Seq<char> {
        format_short_text(self.output_format, self.bitrate_kbps) + AudioBatchApp::dot() + (
        if self.normalize_volume {
            fixed::fixed(self.target_lufs, 1) + " LUFS"@
        } else {
            "no normalization"@
        }) + (if self.trim_silence {
            AudioBatchApp::dot() + "trim silence"@
        } else {
            Seq::<char>::empty()
        }) + AudioBatchApp::dot() + (if self.automixer {
            "clean up: "@ + self.modules()
        } else {
            "no clean-up"@
        })
    }

    /// The whole configuration on one line, for the action bar.
    pub fn recipe(&self) -> (r: String)
        ensures
            r@ == self.recipe_text(),
    {
        let dot: &str = "   \u{b7}   ";
        let mut r: String = format_short(self.output_format, self.bitrate_kbps);
        r.append(dot);
        let norm: String = if self.normalize_volume {
            let mut t: String = fixed::fixed_text(self.target_lufs, 1);
            t.append(" LUFS");
            t
        } else {
            "no normalization".to_owned()
        };
        r.append(norm.as_str());
        let trim: String = if self.trim_silence {
            text::joined(dot, "trim silence")
        } else {
            String::new()
        };
        r.append(trim.as_str());
        r.append(dot);
        let clean: String = if self.automixer {
            let mut m: String = String::new();
            if self.automixer_dfn3_dereverb {
                m.append("dereverb, ");
            }
            if self.automixer_expander {
                m.append("expander, ");
            }
            if self.automixer_spectral_gate {
                m.append("spectral gate, ");
            }
            if self.automixer_nn_dereverb {
                m.append("nnnoiseless, ");
            }
            m.append("voice EQ");
            assert(m@ =~= self.modules());
            text::joined("clean up: ", m.as_str())
        } else {
            "no clean-up".to_owned()
        };
        r.append(clean.as_str());
        r
    }

    /// The warning about the folders: they are the same.
    pub fn folder_notice(&self) -> (r: Option<&'static str>)
        ensures
            r is Some <==> self.input_dir@.len() > 0 && self.input_dir@ == self.output_dir@,
            r is Some ==> r->0@
                == "The output folder is the source folder. Point them at different folders \u{2014} writing a file while FFmpeg is reading it can destroy the original."@,
    {
        if !self.input_dir.as_str().is_empty() && text::same(
            self.input_dir.as_str(),
            self.output_dir.as_str(),
        ) {
            Some(
                "The output folder is the source folder. Point them at different folders \u{2014} writing a file while FFmpeg is reading it can destroy the original.",
            )
        } else {
            None
        }
    }

    /// The warning about the bitrate: it is very low for a lossy format.
    pub fn bitrate_notice(&self) -> (r: Option<&'static str>)
        ensures
            r is Some <==> self.output_format.lossy() && self.bitrate_kbps <= 48,
            r is Some ==> r->0@ == "Highest compression, requires a verification for quality."@,
    {
        if self.output_format.needs_bitrate() && self.bitrate_kbps <= 48 {
            Some("Highest compression, requires a verification for quality.")
        } else {
            None
        }
    }

    /// The warning about the reduction: the deepest one sounds like a gate.
    pub fn reduction_notice(&self) -> (r: Option<&'static str>)
        ensures
            r is Some <==> self.automixer_expander && self.automixer_expander_reduction_profile
                == ReductionProfile::Max,
            r is Some ==> r->0@
                == "MAX (-32 dB) is aggressive \u{2014} can sound like a hard gate on RMS-detected material below an already-conservative threshold."@,
    {
        if self.automixer_expander && self.automixer_expander_reduction_profile
            == ReductionProfile::Max {
            Some(
                "MAX (-32 dB) is aggressive \u{2014} can sound like a hard gate on RMS-detected material below an already-conservative threshold.",
            )
        } else {
            None
        }
    }
}

/// Where the folder in a log line ends: behind its last slash or backslash.
pub open spec fn folder_end(line: Seq<char>) -> nat
    decreases line.len(),
{
    if line.len() == 0 {
        0
    } else if line.last() == '/' || line.last() == '\\' {
        line.len()
    } else {
        folder_end(line.drop_last())
    }
}

/// A log line as it is drawn.
pub struct LogLine {
    pub error: bool,
    /// The part up to the file name, which is drawn dimmed.
    pub dim: String,
    /// The rest.
    pub bright: String,
}

/// Splits a log line for drawing.
pub fn split_log_line(line: &str) -> (r: LogLine)
    ensures
        r.error == is_error(line@),
        r.dim@ == line@.take(folder_end(line@) as int),
        r.bright@ == line@.skip(folder_end(line@) as int),
        r.dim@ + r.bright@ == line@,
{
    let chars: Vec<char> = text::chars_of(line);
    let error: bool = error_line(line);
    let mut n: usize = chars.len();
    let len: usize = n;
    assert(chars@.take(n as int) =~= chars@);
    while n > 0 && chars[n - 1] != '/' && chars[n - 1] != '\\'
        invariant
            n <= chars@.len(),
            folder_end(chars@.take(n as int)) == folder_end(chars@),
        decreases n,
    {
        assert(chars@.take(n as int).drop_last() =~= chars@.take(n - 1));
        n = n - 1;
    }
    let dim: String = text::text_between(chars.as_slice(), 0, n);
    let bright: String = text::text_between(chars.as_slice(), n, len);
    assert(dim@ =~= line@.take(n as int));
    assert(bright@ =~= line@.skip(n as int));
    assert(dim@ + bright@ =~= line@);
    LogLine { error, dim, bright }
}

// ---------------------------------------------------------------------------
// Laws
// ---------------------------------------------------------------------------

/// The log never grows past its bound, and neither does a line in it.
pub proof fn the_log_is_bounded(lines: Seq<Seq<char>>, t: Seq<char>)
    requires
        lines.len() <= MAX_LOG_LINES,
    ensures
        logged(lines, t).len() <= MAX_LOG_LINES,
        as_log_line(t).len() <= MAX_LOG_LINE_CHARS + "... [truncated]"@.len(),
        logged(lines, t).last() == as_log_line(t),
{
}

/// An error message is an error line in the log, however long it is.
pub proof fn errors_stay_recognizable(t: Seq<char>)
    ensures
        is_error(as_log_line("[ERROR] "@ + t)),
{
    reveal_strlit("[ERROR] ");
    reveal_strlit("[ERROR]");
    let line: Seq<char> = "[ERROR] "@ + t;
    assert(line.take(7) =~= "[ERROR]"@);
    assert(as_log_line(line).take(7) =~= line.take(7));
}

/// Messages that arrive out of order never take the progress back.
pub proof fn progress_never_goes_back(r: RunModel, m: AppMsg)
    ensures
        received(r, m).current_progress >= r.current_progress,
{
}

/// Only the end of a run clears the flags, and it clears both.
pub proof fn a_last_message_ends_the_run(r: RunModel, ms: Seq<AppMsg>)
    requires
        ms.len() > 0,
        ms.last() is Finished || ms.last() is Stopped,
    ensures
        !received_all(r, ms).is_processing,
        !received_all(r, ms).is_analyzing,
{
}

/// No message starts a run.
pub proof fn no_message_starts_a_run(r: RunModel, m: AppMsg)
    ensures
        received(r, m).is_processing ==> r.is_processing,
        received(r, m).is_analyzing ==> r.is_analyzing,
{
}

/// Messages taken in two lots, one after the other, do what they do in one lot.
pub proof fn messages_can_be_taken_in_lots(r: RunModel, a: Seq<AppMsg>, b: Seq<AppMsg>)
    ensures
        received_all(r, a + b) == received_all(received_all(r, a), b),
    decreases b.len(),
{
    if b.len() == 0 {
        assert(a + b =~= a);
    } else {
        assert((a + b).drop_last() =~= a + b.drop_last());
        messages_can_be_taken_in_lots(r, a, b.drop_last());
    }
}

} // verus!
