//! The passes that one file goes through.
//!
//! A [`FileJob`] decides; whoever drives it performs each [`Action`] and hands the outcome back
//! as an [`Event`].

use vstd::prelude::*;

use crate::args;
use crate::args::{Arg, ArgModel, Source};
use crate::audio_effects::{DereverbParams, ExpanderParams, NnnoiseParams, SpectralGateParams};
use crate::ffmpeg;
use crate::ffmpeg::SpawnCounter;
use crate::fixed;
use crate::memory;
use crate::processing;
use crate::processing::NormDecision;
use crate::single;
use crate::single::Single;
use crate::text;
use crate::types::{LoudnormStats, NormResult, ProcessingOptions, ReductionProfile};

verus! {

// ---------------------------------------------------------------------------
// Stages on the samples in memory
// ---------------------------------------------------------------------------

/// One stage of the processing in memory.
#[derive(Clone, Copy, PartialEq, Eq, Debug, Structural)]
pub enum Stage {
    /// Estimates the noise floor that the expander will use.
    EstimateNoiseFloor,
    /// DeepFilterNet3.
    Dereverb { mix: Single, attenuation_limit: Single, post_filter: bool },
    /// The downward expander.
    Expand { safety_pct: Single, reduction_profile: ReductionProfile },
    /// The spectral gate.
    SpectralGate,
    /// nnnoiseless.
    Denoise,
    /// The voice equalizer.
    VoiceEq { strength: Single },
}

/// The stages in order. The noise floor is estimated before anything touches the signal, the
/// reverb goes first, of the two denoisers at most one runs, and the equalizer comes last.
pub open spec fn stages(o: ProcessingOptions) -> Seq<Stage> {
    (if o.automixer_expander {
        seq![Stage::EstimateNoiseFloor]
    } else {
        Seq::empty()
    }) + (if o.automixer_dfn3_dereverb {
        seq![
            Stage::Dereverb {
                mix: single::quotient(o.automixer_dfn3_mix, single::whole(100)),
                attenuation_limit: single::whole(30),
                post_filter: o.automixer_dfn3_postfilter,
            },
        ]
    } else {
        Seq::empty()
    }) + (if o.automixer_expander {
        seq![
            Stage::Expand {
                safety_pct: o.automixer_expander_safety_pct,
                reduction_profile: o.automixer_expander_reduction_profile,
            },
        ]
    } else {
        Seq::empty()
    }) + (if o.automixer_spectral_gate {
        seq![Stage::SpectralGate]
    } else if o.automixer_nn_dereverb {
        seq![Stage::Denoise]
    } else {
        Seq::empty()
    }) + seq![Stage::VoiceEq { strength: single::ratio(1, 2) }]
}

/// The stages in order.
pub fn dsp_stages(o: &ProcessingOptions) -> (r: Vec<Stage>)
    ensures
        r@ == stages(*o),
{
    let mut r: Vec<Stage> = Vec::new();
    if o.automixer_expander {
        r.push(Stage::EstimateNoiseFloor);
    }
    if o.automixer_dfn3_dereverb {
        r.push(
            Stage::Dereverb {
                mix: o.automixer_dfn3_mix.over(Single::from_i32(100)),
                attenuation_limit: Single::from_i32(30),
                post_filter: o.automixer_dfn3_postfilter,
            },
        );
    }
    if o.automixer_expander {
        r.push(
            Stage::Expand {
                safety_pct: o.automixer_expander_safety_pct,
                reduction_profile: o.automixer_expander_reduction_profile,
            },
        );
    }
    if o.automixer_spectral_gate {
        r.push(Stage::SpectralGate);
    } else if o.automixer_nn_dereverb {
        r.push(Stage::Denoise);
    }
    r.push(Stage::VoiceEq { strength: Single::of_ratio(1, 2) });
    assert(r@ == stages(*o));
    r
}

/// What a stage comes to, with the settings that it runs with.
#[derive(Clone, Copy, Debug)]
pub enum StageWork {
    /// Estimate the noise floor, for the expander.
    EstimateNoiseFloor,
    Dereverb(DereverbParams),
    /// Run the expander with this noise floor.
    Expand { params: ExpanderParams, noise_floor_db: Single },
    SpectralGate(SpectralGateParams),
    Denoise(NnnoiseParams),
    VoiceEq { strength: Single },
    /// Leave the samples as they are.
    PassOver,
}

/// What a stage comes to. The expander goes by the noise floor, and is passed over where none
/// was found.
pub open spec fn work(stage: Stage, noise_floor_db: Option<Single>) -> StageWork {
    match stage {
        Stage::EstimateNoiseFloor => StageWork::EstimateNoiseFloor,
        Stage::Dereverb { mix, attenuation_limit, post_filter } => StageWork::Dereverb(
            DereverbParams { mix, attenuation_limit, post_filter },
        ),
        Stage::Expand { safety_pct, reduction_profile } => match noise_floor_db {
            Some(floor) => StageWork::Expand {
                params: ExpanderParams {
                    safety_pct,
                    reduction_profile,
                    ..ExpanderParams::initial()
                },
                noise_floor_db: floor,
            },
            None => StageWork::PassOver,
        },
        Stage::SpectralGate => StageWork::SpectralGate(SpectralGateParams::initial()),
        Stage::Denoise => StageWork::Denoise(NnnoiseParams::initial()),
        Stage::VoiceEq { strength } => StageWork::VoiceEq { strength },
    }
}

/// What a stage comes to, given the noise floor that was found if one was.
pub fn stage_work(stage: Stage, noise_floor_db: Option<Single>) -> (r: StageWork)
    ensures
        r == work(stage, noise_floor_db),
{
    match stage {
        Stage::EstimateNoiseFloor => StageWork::EstimateNoiseFloor,
        Stage::Dereverb { mix, attenuation_limit, post_filter } => StageWork::Dereverb(
            DereverbParams { mix, attenuation_limit, post_filter },
        ),
        Stage::Expand { safety_pct, reduction_profile } => match noise_floor_db {
            Some(floor) => {
                let mut params: ExpanderParams = ExpanderParams::default();
                params.safety_pct = safety_pct;
                params.reduction_profile = reduction_profile;
                StageWork::Expand { params, noise_floor_db: floor }
            },
            None => StageWork::PassOver,
        },
        Stage::SpectralGate => StageWork::SpectralGate(SpectralGateParams::default()),
        Stage::Denoise => StageWork::Denoise(NnnoiseParams::default()),
        Stage::VoiceEq { strength } => StageWork::VoiceEq { strength },
    }
}

/// Some stage only works at 48 kHz.
pub open spec fn needs_48k(o: ProcessingOptions) -> bool {
    o.automixer_dfn3_dereverb || o.automixer_nn_dereverb
}

// ---------------------------------------------------------------------------
// Actions and events
// ---------------------------------------------------------------------------

/// What is to be done next.
pub enum Action {
    /// Run FFmpeg for the stream summary of the input.
    Probe { cmd: Vec<Arg> },
    /// Reserve memory, then decode the input into memory through FFmpeg's standard output.
    Decode { reserve: u64, cmd: Vec<Arg> },
    /// Run the stages on the samples in memory.
    Process { stages: Vec<Stage> },
    /// Write the samples to a temporary file at this rate, and give the memory back.
    Store { sample_rate: u32 },
    /// Run the standard loudness measurement.
    MeasureStandard { cmd: Vec<Arg> },
    /// Run the loudness measurement on audio padded to `pad_secs`, with the command line that
    /// [`FileJob::padded_measurement`] gives for the text of that number.
    MeasurePadded { pad_secs: Single },
    /// Run the peak measurement.
    MeasurePeak { cmd: Vec<Arg> },
    /// Encode, publish the output if that succeeds, and report this.
    Encode { cmd: Vec<Arg>, result: NormResult },
    /// Give the file up with this message.
    Fail { message: String },
}

/// What an [`Action`] stands for.
pub enum ActionModel {
    Probe { cmd: Seq<ArgModel> },
    Decode { reserve: nat, cmd: Seq<ArgModel> },
    Process { stages: Seq<Stage> },
    Store { sample_rate: u32 },
    MeasureStandard { cmd: Seq<ArgModel> },
    MeasurePadded { pad_secs: Single },
    MeasurePeak { cmd: Seq<ArgModel> },
    Encode { cmd: Seq<ArgModel>, result: NormResult },
    Fail { message: Seq<char> },
}

impl View for Action {
    type V = ActionModel;

    open spec fn view(&self) -> ActionModel {
        match self {
            Action::Probe { cmd } => ActionModel::Probe { cmd: args::model(cmd@) },
            Action::Decode { reserve, cmd } => ActionModel::Decode {
                reserve: *reserve as nat,
                cmd: args::model(cmd@),
            },
            Action::Process { stages } => ActionModel::Process { stages: stages@ },
            Action::Store { sample_rate } => ActionModel::Store { sample_rate: *sample_rate },
            Action::MeasureStandard { cmd } => ActionModel::MeasureStandard {
                cmd: args::model(cmd@),
            },
            Action::MeasurePadded { pad_secs } => ActionModel::MeasurePadded {
                pad_secs: *pad_secs,
            },
            Action::MeasurePeak { cmd } => ActionModel::MeasurePeak { cmd: args::model(cmd@) },
            Action::Encode { cmd, result } => ActionModel::Encode {
                cmd: args::model(cmd@),
                result: *result,
            },
            Action::Fail { message } => ActionModel::Fail { message: message@ },
        }
    }
}

/// The processes that an action launches.
pub open spec fn cost(a: ActionModel) -> nat {
    match a {
        ActionModel::Process { .. } => 0,
        ActionModel::Store { .. } => 0,
        ActionModel::Fail { .. } => 0,
        _ => 1,
    }
}

/// What came of reading the decoded samples.
pub enum Decoding {
    /// So many samples were read.
    Samples(usize),
    /// The stream could not be read.
    Unreadable,
    /// Memory ran out; the text tells the user how far reading came and what to do.
    OutOfMemory(String),
}

/// What came of an action.
pub enum Event {
    /// Nothing yet.
    Begin,
    /// The stream summary was read as far as it could be.
    Probed { sample_rate: Option<u32>, duration: Option<Single> },
    /// The decoding pass is over: whether it started, what came of reading its samples, whether
    /// it succeeded (`None` if waiting failed), and what it said.
    Decoded { started: bool, samples: Decoding, success: Option<bool>, stderr: String },
    /// The stages are done: how many samples there are now, and their peak level in dB.
    Processed(Result<(usize, Single), String>),
    /// The temporary file is written, or not.
    Stored(Result<(), String>),
    /// A loudness measurement is over: the statistics, and the loudness in them as a number if it
    /// is one.
    Measured(Result<(LoudnormStats, Option<Single>), String>),
    /// The peak measurement is over; `None` if it gave no number.
    PeakMeasured { peak: Option<Single> },
}

/// How far a job is: which event it waits for.
#[derive(Clone, Copy, PartialEq, Eq, Debug, Structural)]
pub enum Phase {
    Fresh,
    Probing,
    Decoding,
    Processing,
    Storing,
    Standard,
    Padded,
    Peak,
    Ended,
}

/// The event is the one that a job in this phase waits for.
pub open spec fn fits(p: Phase, e: Event) -> bool {
    match e {
        Event::Begin => p == Phase::Fresh,
        Event::Probed { .. } => p == Phase::Probing,
        Event::Decoded { .. } => p == Phase::Decoding,
        Event::Processed(_) => p == Phase::Processing,
        Event::Stored(_) => p == Phase::Storing,
        Event::Measured(_) => p == Phase::Standard || p == Phase::Padded,
        Event::PeakMeasured { .. } => p == Phase::Peak,
    }
}

// ---------------------------------------------------------------------------
// The job
// ---------------------------------------------------------------------------

/// The processing of one file.
pub struct FileJob {
    pub opts: ProcessingOptions,
    /// The loudness target as a decimal text.
    pub lufs: String,
    pub phase: Phase,
    /// What is measured and encoded.
    pub source: Source,
    /// The sample rate of the input, to be restored in the output.
    pub source_sr: u32,
    /// The sample rate at which the stages run.
    pub dsp_sr: u32,
    /// The duration that picks the first measurement.
    pub duration: Single,
}

/// What a [`FileJob`] stands for.
pub struct JobModel {
    pub opts: ProcessingOptions,
    pub lufs: Seq<char>,
    pub phase: Phase,
    pub source: Source,
    pub source_sr: u32,
    pub dsp_sr: u32,
    pub duration: Single,
}

impl View for FileJob {
    type V = JobModel;

    open spec fn view(&self) -> JobModel {
        JobModel {
            opts: self.opts,
            lufs: self.lufs@,
            phase: self.phase,
            source: self.source,
            source_sr: self.source_sr,
            dsp_sr: self.dsp_sr,
            duration: self.duration,
        }
    }
}

/// One step of a job: where it stands then, what is to be done, and a line for the log.
pub struct Step {
    pub job: JobModel,
    pub action: ActionModel,
    pub log: Option<Seq<char>>,
}

/// The command line up to the filters of the encode.
pub open spec fn encode_head(source: Source) -> Seq<ArgModel> {
    ffmpeg::opening() + seq![
        args::word("-y"@),
        args::word("-hide_banner"@),
        args::word("-i"@),
        args::read_from(source),
        args::word("-vn"@),
    ]
}

/// The command line of the encode around its filters.
pub open spec fn encode_cmd(
    source: Source,
    o: ProcessingOptions,
    filters: Seq<ArgModel>,
) -> Seq<ArgModel> {
    (encode_head(source) + filters + processing::format_args(o.output_format, o.bitrate_kbps)).push(
        ArgModel::Output,
    )
}

/// The command line of the decoding pass: de-essed mono samples at this rate, on the standard
/// output.
pub open spec fn decode_cmd(dsp_sr: u32) -> Seq<ArgModel> {
    ffmpeg::opening() + seq![
        args::word("-y"@),
        args::word("-hide_banner"@),
        args::word("-i"@),
        ArgModel::Input,
        args::word("-vn"@),
        args::word("-af"@),
        args::word(processing::deesser_text()),
        args::word("-ac"@),
        args::word("1"@),
        args::word("-ar"@),
        args::word(text::decimal(dsp_sr as nat)),
        args::word("-f"@),
        args::word("f32le"@),
        args::word("pipe:1"@),
    ]
}

/// The job in another phase.
pub open spec fn at_phase(j: JobModel, phase: Phase) -> JobModel {
    JobModel { phase, ..j }
}

/// The file is given up.
pub open spec fn fail(j: JobModel, message: Seq<char>) -> Step {
    Step { job: at_phase(j, Phase::Ended), action: ActionModel::Fail { message }, log: None }
}

/// The file is encoded behind these filters.
pub open spec fn encode(j: JobModel, filters: Seq<ArgModel>, result: NormResult, log: Option<Seq<char>>) -> Step {
    Step {
        job: at_phase(j, Phase::Ended),
        action: ActionModel::Encode { cmd: encode_cmd(j.source, j.opts, filters), result },
        log,
    }
}

/// Encodes with a normalization.
pub open spec fn encode_decided(j: JobModel, d: NormDecision) -> Step {
    encode(
        j,
        processing::norm_args(d, j.lufs, j.source_sr, processing::chain_text(j.opts)),
        processing::norm_result(d),
        None,
    )
}

/// The loudness is measured as it is.
pub open spec fn measure_standard(j: JobModel) -> Step {
    Step {
        job: at_phase(j, Phase::Standard),
        action: ActionModel::MeasureStandard {
            cmd: ffmpeg::opening() + ffmpeg::measurement_tail(
                j.source,
                ffmpeg::behind(
                    processing::chain_text(j.opts),
                    ffmpeg::loudnorm_measure(j.lufs),
                ),
            ),
        },
        log: None,
    }
}

/// The length that short audio is padded to: at least 5 s, and 1 s more than it has.
pub open spec fn pad_secs(duration: Single) -> Single {
    single::maximum(single::whole(5), single::sum(duration, single::whole(1)))
}

/// The loudness is measured on a copy padded with silence.
pub open spec fn measure_padded(j: JobModel, log: Option<Seq<char>>) -> Step {
    Step {
        job: at_phase(j, Phase::Padded),
        action: ActionModel::MeasurePadded { pad_secs: pad_secs(j.duration) },
        log,
    }
}

/// The command line of the loudness measurement on audio padded to `pad` seconds.
pub open spec fn padded_cmd(j: JobModel, pad: Seq<char>) -> Seq<ArgModel> {
    ffmpeg::opening() + ffmpeg::measurement_tail(
        j.source,
        ffmpeg::behind(processing::chain_text(j.opts), ffmpeg::padded_measure(j.lufs, pad)),
    )
}

/// The peak is measured.
pub open spec fn measure_peak(j: JobModel, log: Option<Seq<char>>) -> Step {
    Step {
        job: at_phase(j, Phase::Peak),
        action: ActionModel::MeasurePeak {
            cmd: ffmpeg::opening() + ffmpeg::measurement_tail(
                j.source,
                ffmpeg::behind(processing::chain_text(j.opts), "volumedetect"@),
            ),
        },
        log,
    }
}

/// Starts measuring: the standard pass from 3 s on, the padded one below.
pub open spec fn measure_first(j: JobModel) -> Step {
    if single::at_most(single::whole(3), j.duration) {
        measure_standard(j)
    } else {
        measure_padded(j, None)
    }
}

/// What is logged of a measurement that failed.
pub open spec fn unavailable_text(pass: Seq<char>, reason: Seq<char>) -> Seq<char> {
    pass + " loudness measurement unavailable ("@ + reason
        + "); falling back to the next strategy."@
}

/// What a measurement gave, as far as normalization can use it, and what is logged of it.
pub open spec fn softened(
    pass: Seq<char>,
    outcome: Result<(LoudnormStats, Option<Single>), String>,
) -> (Option<LoudnormStats>, Option<Seq<char>>) {
    match outcome {
        Ok((stats, input_i)) => (
            if input_i is Some && ffmpeg::usable(input_i->0) {
                Some(stats)
            } else {
                None
            },
            None,
        ),
        Err(e) => (None, Some(unavailable_text(pass, e@))),
    }
}

/// A reference to what is there.
pub open spec fn borrowed(s: &Option<LoudnormStats>) -> Option<&LoudnormStats> {
    match s {
        Some(t) => Some(t),
        None => None,
    }
}

/// Everything in the file is below the trim threshold, by more than the filters in between could
/// make up for.
pub open spec fn all_below_threshold(o: ProcessingOptions, peak_db: Single) -> bool {
    o.trim_silence && single::less(
        single::sum(peak_db, single::whole(8)),
        single::whole(o.trim_silence_threshold.whole_db()),
    )
}

/// What is said of a file that trimming would leave empty.
pub open spec fn below_threshold_text(o: ProcessingOptions, peak_db: Single) -> Seq<char> {
    "nothing in this file reaches the Trim silence threshold ("@ + fixed::fixed(
        single::whole(o.trim_silence_threshold.whole_db()),
        0,
    )
        + " dB),                  so trimming would leave an empty file. Its loudest moment is "@
        + (if peak_db.finite() {
        fixed::fixed(peak_db, 1) + " dB"@
    } else {
        "digital silence"@
    }) + ".                  Lower the threshold, or check the take."@
}

/// How a new job starts.
pub open spec fn on_begin(j: JobModel) -> Step {
    if j.opts.automixer || j.opts.target_lufs is Some {
        Step {
            job: at_phase(j, Phase::Probing),
            action: ActionModel::Probe { cmd: ffmpeg::opening() + ffmpeg::probe_tail() },
            log: None,
        }
    } else {
        encode(
            j,
            match processing::chain_text(j.opts) {
                Some(t) => seq![args::word("-af"@), args::word(t)],
                None => Seq::empty(),
            },
            NormResult::Skipped,
            None,
        )
    }
}

/// How a job goes on once the input is probed.
pub open spec fn on_probed(
    j: JobModel,
    sample_rate: Option<u32>,
    duration: Option<Single>,
) -> Step {
    let source_sr = match sample_rate {
        Some(r) => r,
        None => 44100,
    };
    if j.opts.automixer {
        let dsp_sr: u32 = if needs_48k(j.opts) {
            48_000
        } else {
            source_sr
        };
        Step {
            job: JobModel { phase: Phase::Decoding, source_sr, dsp_sr, ..j },
            action: ActionModel::Decode {
                reserve: memory::footprint(
                    duration,
                    dsp_sr,
                    j.opts.automixer_dfn3_dereverb,
                ),
                cmd: decode_cmd(dsp_sr),
            },
            log: None,
        }
    } else {
        measure_first(
            JobModel {
                source_sr,
                duration: match duration {
                    Some(d) => d,
                    None => single::whole(0),
                },
                ..j
            },
        )
    }
}

/// How a job goes on once the decoding pass is over.
pub open spec fn on_decoded(
    j: JobModel,
    started: bool,
    samples: Decoding,
    success: Option<bool>,
    stderr: Seq<char>,
) -> Step {
    if !started {
        fail(j, "FFmpeg spawn failed (de-esser pass)"@)
    } else if samples is Unreadable {
        fail(j, "reading FFmpeg de-esser output"@)
    } else if samples is OutOfMemory {
        fail(j, "reading FFmpeg de-esser output: "@ + samples->OutOfMemory_0@)
    } else if success is None {
        fail(j, "FFmpeg de-esser wait failed"@)
    } else if success != Some(true) {
        fail(j, "FFmpeg de-esser pass failed: "@ + stderr)
    } else if samples == Decoding::Samples(0) {
        fail(j, "the file decoded to no audio at all"@)
    } else {
        Step {
            job: at_phase(j, Phase::Processing),
            action: ActionModel::Process { stages: stages(j.opts) },
            log: None,
        }
    }
}

/// How a job goes on once the stages are done.
pub open spec fn on_processed(j: JobModel, outcome: Result<(usize, Single), String>) -> Step {
    match outcome {
        Err(m) => fail(j, m@),
        Ok((len, peak_db)) => if all_below_threshold(j.opts, peak_db) {
            fail(j, below_threshold_text(j.opts, peak_db))
        } else {
            Step {
                job: JobModel {
                    phase: Phase::Storing,
                    duration: single::quotient(
                        single::whole(len as int),
                        single::whole(j.dsp_sr as int),
                    ),
                    ..j
                },
                action: ActionModel::Store { sample_rate: j.dsp_sr },
                log: None,
            }
        },
    }
}

/// How a job goes on once the samples are stored: from here on these are measured and encoded,
/// not what the input held.
pub open spec fn on_stored(j: JobModel, outcome: Result<(), String>) -> Step {
    match outcome {
        Err(m) => fail(j, m@),
        Ok(_) => if j.opts.target_lufs is Some {
            measure_first(JobModel { source: Source::Stored, ..j })
        } else {
            encode(
                JobModel { source: Source::Stored, ..j },
                ffmpeg::filter_and_rate(
                    match processing::chain_text(j.opts) {
                        Some(t) => t,
                        None => Seq::empty(),
                    },
                    j.source_sr,
                ),
                NormResult::Skipped,
                None,
            )
        },
    }
}

/// How a job goes on once the loudness is measured.
pub open spec fn on_measured(
    j: JobModel,
    outcome: Result<(LoudnormStats, Option<Single>), String>,
) -> Step {
    if j.phase == Phase::Standard {
        let (stats, log) = softened("Standard"@, outcome);
        let d = processing::decision(
            j.duration,
            borrowed(&stats),
            None,
            None,
            j.opts.target_peak_dbfs,
        );
        if d is Standard {
            encode_decided(j, d)
        } else {
            measure_padded(j, log)
        }
    } else {
        let (stats, log) = softened("Padded"@, outcome);
        let d = processing::decision(
            j.duration,
            None,
            borrowed(&stats),
            None,
            j.opts.target_peak_dbfs,
        );
        if d is Padded {
            encode_decided(j, d)
        } else {
            measure_peak(j, log)
        }
    }
}

/// How a job goes on once the peak is measured.
pub open spec fn on_peak_measured(j: JobModel, peak: Option<Single>) -> Step {
    encode_decided(
        j,
        processing::decision(j.duration, None, None, peak, j.opts.target_peak_dbfs),
    )
}

/// How a job goes on after an event that it waits for.
pub open spec fn advance(j: JobModel, e: Event) -> Step {
    match e {
        Event::Begin => on_begin(j),
        Event::Probed { sample_rate, duration } => on_probed(j, sample_rate, duration),
        Event::Decoded { started, samples, success, stderr } => on_decoded(
            j,
            started,
            samples,
            success,
            stderr@,
        ),
        Event::Processed(outcome) => on_processed(j, outcome),
        Event::Stored(outcome) => on_stored(j, outcome),
        Event::Measured(outcome) => on_measured(j, outcome),
        Event::PeakMeasured { peak } => on_peak_measured(j, peak),
    }
}

/// The first step of any job for these options.
pub open spec fn fresh(opts: ProcessingOptions, lufs: Seq<char>) -> JobModel {
    JobModel {
        opts,
        lufs,
        phase: Phase::Fresh,
        source: Source::Input,
        source_sr: 44100,
        dsp_sr: 44100,
        duration: single::whole(0),
    }
}

impl FileJob {
    /// A job for one file. `lufs` is the loudness target as a decimal text.
    pub fn new(opts: ProcessingOptions, lufs: String) -> (j: FileJob)
        ensures
            j@ == fresh(opts, lufs@),
    {
        FileJob {
            opts,
            lufs,
            phase: Phase::Fresh,
            source: Source::Input,
            source_sr: 44100,
            dsp_sr: 44100,
            duration: Single::from_i32(0),
        }
    }

    fn fail(&mut self, message: String) -> (r: (Action, Option<String>))
        ensures
            final(self)@ == fail(old(self)@, message@).job,
            r.0@ == fail(old(self)@, message@).action,
            r.1 is None,
    {
        self.phase = Phase::Ended;
        (Action::Fail { message }, None)
    }

    fn encode_start(&self, spawns: &mut SpawnCounter) -> (cmd: Vec<Arg>)
        requires
            old(spawns).count < u64::MAX,
        ensures
            args::model(cmd@) == encode_head(self.source),
            final(spawns).count == old(spawns).count + 1,
    {
        let mut cmd: Vec<Arg> = ffmpeg::ffmpeg_cmd(spawns);
        args::push_text(&mut cmd, "-y");
        args::push_text(&mut cmd, "-hide_banner");
        args::push_text(&mut cmd, "-i");
        args::push_source(&mut cmd, self.source);
        args::push_text(&mut cmd, "-vn");
        assert(args::model(cmd@) == encode_head(self.source));
        cmd
    }

    fn encode_end(&self, cmd: &mut Vec<Arg>, Ghost(filters): Ghost<Seq<ArgModel>>)
        requires
            args::model(old(cmd)@) == encode_head(self.source) + filters,
        ensures
            args::model(final(cmd)@) == encode_cmd(self.source, self.opts, filters),
    {
        processing::add_format_args(cmd, self.opts.output_format, self.opts.bitrate_kbps);
        args::push(cmd, Arg::Output);
    }

    fn encode_decided(&mut self, spawns: &mut SpawnCounter, d: &NormDecision) -> (r: (
        Action,
        Option<String>,
    ))
        requires
            old(spawns).count < u64::MAX,
        ensures
            final(self)@ == encode_decided(old(self)@, *d).job,
            r.0@ == encode_decided(old(self)@, *d).action,
            r.1 is None,
            final(spawns).count == old(spawns).count + 1,
    {
        let chain: Option<String> = processing::chain_for(&self.opts);
        let prefix: Option<&str> = match &chain {
            Some(t) => Some(t.as_str()),
            None => None,
        };
        let mut cmd: Vec<Arg> = self.encode_start(spawns);
        let result: NormResult = processing::apply_norm_decision(
            &mut cmd,
            d,
            self.lufs.as_str(),
            self.source_sr,
            prefix,
        );
        let ghost filters: Seq<ArgModel> = processing::norm_args(
            *d,
            self.lufs@,
            self.source_sr,
            processing::chain_text(self.opts),
        );
        self.encode_end(&mut cmd, Ghost(filters));
        self.phase = Phase::Ended;
        (Action::Encode { cmd, result }, None)
    }

    fn measure_first(&mut self, spawns: &mut SpawnCounter) -> (r: (Action, Option<String>))
        requires
            old(spawns).count < u64::MAX,
        ensures
            final(self)@ == measure_first(old(self)@).job,
            r.0@ == measure_first(old(self)@).action,
            r.1 is None,
            final(spawns).count == old(spawns).count + 1,
    {
        if Single::from_i32(3).le(self.duration) {
            let chain: Option<String> = processing::chain_for(&self.opts);
            let prefix: Option<&str> = match &chain {
                Some(t) => Some(t.as_str()),
                None => None,
            };
            let mut cmd: Vec<Arg> = ffmpeg::ffmpeg_cmd(spawns);
            ffmpeg::add_stats_measurement(&mut cmd, self.source, self.lufs.as_str(), prefix);
            self.phase = Phase::Standard;
            (Action::MeasureStandard { cmd }, None)
        } else {
            self.measure_padded(spawns, None)
        }
    }

    fn measure_padded(&mut self, spawns: &mut SpawnCounter, log: Option<String>) -> (r: (
        Action,
        Option<String>,
    ))
        requires
            old(spawns).count < u64::MAX,
        ensures
            final(self)@ == measure_padded(old(self)@, None).job,
            r.0@ == measure_padded(old(self)@, None).action,
            r.1 == log,
            final(spawns).count == old(spawns).count + 1,
    {
        ffmpeg::count_invocation(spawns);
        let pad_secs: Single = Single::from_i32(5).max(self.duration.plus(Single::from_i32(1)));
        self.phase = Phase::Padded;
        (Action::MeasurePadded { pad_secs }, log)
    }

    /// The command line of the loudness measurement on padded audio; `pad` is the length asked
    /// for as a decimal text.
    pub fn padded_measurement(&self, pad: &str) -> (cmd: Vec<Arg>)
        ensures
            args::model(cmd@) == padded_cmd(self@, pad@),
    {
        let chain: Option<String> = processing::chain_for(&self.opts);
        let prefix: Option<&str> = match &chain {
            Some(t) => Some(t.as_str()),
            None => None,
        };
        let mut cmd: Vec<Arg> = ffmpeg::opened();
        ffmpeg::add_padded_measurement(&mut cmd, self.source, self.lufs.as_str(), pad, prefix);
        cmd
    }

    fn measure_peak(&mut self, spawns: &mut SpawnCounter, log: Option<String>) -> (r: (
        Action,
        Option<String>,
    ))
        requires
            old(spawns).count < u64::MAX,
        ensures
            final(self)@ == measure_peak(old(self)@, None).job,
            r.0@ == measure_peak(old(self)@, None).action,
            r.1 == log,
            final(spawns).count == old(spawns).count + 1,
    {
        let chain: Option<String> = processing::chain_for(&self.opts);
        let prefix: Option<&str> = match &chain {
            Some(t) => Some(t.as_str()),
            None => None,
        };
        let mut cmd: Vec<Arg> = ffmpeg::ffmpeg_cmd(spawns);
        ffmpeg::add_peak_measurement(&mut cmd, self.source, prefix);
        self.phase = Phase::Peak;
        (Action::MeasurePeak { cmd }, log)
    }

    fn soften(pass: &str, outcome: Result<(LoudnormStats, Option<Single>), String>) -> (r: (
        Option<LoudnormStats>,
        Option<String>,
    ))
        ensures
            r.0 == softened(pass@, outcome).0,
            processing::held(r.1) == softened(pass@, outcome).1,
    {
        match outcome {
            Ok((stats, input_i)) => (ffmpeg::usable_stats(stats, input_i), None),
            Err(e) => {
                let mut m: String = pass.to_owned();
                m.append(" loudness measurement unavailable (");
                m.append(e.as_str());
                m.append("); falling back to the next strategy.");
                (None, Some(m))
            },
        }
    }

    fn begin(&mut self, spawns: &mut SpawnCounter) -> (r: (Action, Option<String>))
        requires
            old(spawns).count < u64::MAX,
        ensures
            final(self)@ == on_begin(old(self)@).job,
            r.0@ == on_begin(old(self)@).action,
            processing::held(r.1) == on_begin(old(self)@).log,
            final(spawns).count == old(spawns).count + cost(r.0@),
    {
        if self.opts.automixer || self.opts.target_lufs.is_some() {
            let cmd: Vec<Arg> = ffmpeg::probe_cmd(spawns);
            self.phase = Phase::Probing;
            return (Action::Probe { cmd }, None);
        }
        let mut cmd: Vec<Arg> = self.encode_start(spawns);
        let ghost filters: Seq<ArgModel> = match processing::chain_text(self.opts) {
            Some(t) => seq![args::word("-af"@), args::word(t)],
            None => Seq::empty(),
        };
        let chain: Option<String> = processing::chain_for(&self.opts);
        if let Some(t) = chain {
            args::push_text(&mut cmd, "-af");
            args::push_text(&mut cmd, t.as_str());
        }
        assert(args::model(cmd@) == encode_head(self.source) + filters);
        self.encode_end(&mut cmd, Ghost(filters));
        self.phase = Phase::Ended;
        (Action::Encode { cmd, result: NormResult::Skipped }, None)
    }

    fn probed(
        &mut self,
        spawns: &mut SpawnCounter,
        sample_rate: Option<u32>,
        duration: Option<Single>,
    ) -> (r: (Action, Option<String>))
        requires
            old(spawns).count < u64::MAX,
        ensures
            final(self)@ == on_probed(old(self)@, sample_rate, duration).job,
            r.0@ == on_probed(old(self)@, sample_rate, duration).action,
            processing::held(r.1) == on_probed(old(self)@, sample_rate, duration).log,
            final(spawns).count == old(spawns).count + cost(r.0@),
    {
        self.source_sr = match sample_rate {
            Some(sr) => sr,
            None => 44100,
        };
        if !self.opts.automixer {
            self.duration = match duration {
                Some(d) => d,
                None => Single::from_i32(0),
            };
            return self.measure_first(spawns);
        }
        self.dsp_sr = if self.opts.automixer_dfn3_dereverb || self.opts.automixer_nn_dereverb {
            48_000
        } else {
            self.source_sr
        };
        let reserve: u64 = memory::estimated_dsp_bytes(
            duration,
            self.dsp_sr,
            self.opts.automixer_dfn3_dereverb,
        );
        let deesser: String = processing::deesser_only_filter();
        let rate: String = text::decimal_text(self.dsp_sr as u128);
        let mut cmd: Vec<Arg> = ffmpeg::ffmpeg_cmd(spawns);
        args::push_text(&mut cmd, "-y");
        args::push_text(&mut cmd, "-hide_banner");
        args::push_text(&mut cmd, "-i");
        args::push(&mut cmd, Arg::Input);
        args::push_text(&mut cmd, "-vn");
        args::push_text(&mut cmd, "-af");
        args::push_text(&mut cmd, deesser.as_str());
        args::push_text(&mut cmd, "-ac");
        args::push_text(&mut cmd, "1");
        args::push_text(&mut cmd, "-ar");
        args::push_text(&mut cmd, rate.as_str());
        args::push_text(&mut cmd, "-f");
        args::push_text(&mut cmd, "f32le");
        args::push_text(&mut cmd, "pipe:1");
        assert(args::model(cmd@) == decode_cmd(self.dsp_sr));
        self.phase = Phase::Decoding;
        (Action::Decode { reserve, cmd }, None)
    }

    fn decoded(
        &mut self,
        started: bool,
        samples: Decoding,
        success: Option<bool>,
        stderr: String,
    ) -> (r: (Action, Option<String>))
        ensures
            final(self)@ == on_decoded(old(self)@, started, samples, success, stderr@).job,
            r.0@ == on_decoded(old(self)@, started, samples, success, stderr@).action,
            processing::held(r.1) == on_decoded(
                old(self)@,
                started,
                samples,
                success,
                stderr@,
            ).log,
            cost(r.0@) == 0,
    {
        if !started {
            return self.fail("FFmpeg spawn failed (de-esser pass)".to_owned());
        }
        let n: usize = match samples {
            Decoding::Samples(n) => n,
            Decoding::Unreadable => {
                return self.fail("reading FFmpeg de-esser output".to_owned());
            },
            Decoding::OutOfMemory(m) => {
                return self.fail(text::joined("reading FFmpeg de-esser output: ", m.as_str()));
            },
        };
        let ok: bool = match success {
            Some(ok) => ok,
            None => {
                return self.fail("FFmpeg de-esser wait failed".to_owned());
            },
        };
        if !ok {
            let mut m: String = "FFmpeg de-esser pass failed: ".to_owned();
            m.append(stderr.as_str());
            return self.fail(m);
        }
        if n == 0 {
            return self.fail("the file decoded to no audio at all".to_owned());
        }
        let stages: Vec<Stage> = dsp_stages(&self.opts);
        self.phase = Phase::Processing;
        (Action::Process { stages }, None)
    }

    fn processed(&mut self, outcome: Result<(usize, Single), String>) -> (r: (
        Action,
        Option<String>,
    ))
        ensures
            final(self)@ == on_processed(old(self)@, outcome).job,
            r.0@ == on_processed(old(self)@, outcome).action,
            processing::held(r.1) == on_processed(old(self)@, outcome).log,
            cost(r.0@) == 0,
    {
        match outcome {
            Err(m) => self.fail(m),
            Ok((len, peak_db)) => {
                let threshold: Single = self.opts.trim_silence_threshold.db();
                if self.opts.trim_silence && peak_db.plus(Single::from_i32(8)).lt(threshold) {
                    let level: String = fixed::fixed_text(threshold, 0);
                    let mut m: String =
                        "nothing in this file reaches the Trim silence threshold (".to_owned();
                    m.append(level.as_str());
                    m.append(
                        " dB),                  so trimming would leave an empty file. Its loudest moment is ",
                    );
                    let loudest: String = if peak_db.is_finite() {
                        let peak: String = fixed::fixed_text(peak_db, 1);
                        text::joined(peak.as_str(), " dB")
                    } else {
                        "digital silence".to_owned()
                    };
                    m.append(loudest.as_str());
                    m.append(".                  Lower the threshold, or check the take.");
                    return self.fail(m);
                }
                self.duration = Single::from_u64(len as u64).over(
                    Single::from_u64(self.dsp_sr as u64),
                );
                self.phase = Phase::Storing;
                (Action::Store { sample_rate: self.dsp_sr }, None)
            },
        }
    }

    fn stored(&mut self, spawns: &mut SpawnCounter, outcome: Result<(), String>) -> (r: (
        Action,
        Option<String>,
    ))
        requires
            old(spawns).count < u64::MAX,
        ensures
            final(self)@ == on_stored(old(self)@, outcome).job,
            r.0@ == on_stored(old(self)@, outcome).action,
            processing::held(r.1) == on_stored(old(self)@, outcome).log,
            final(spawns).count == old(spawns).count + cost(r.0@),
    {
        match outcome {
            Err(m) => self.fail(m),
            Ok(_) => {
                self.source = Source::Stored;
                if self.opts.target_lufs.is_some() {
                    return self.measure_first(spawns);
                }
                let chain: Option<String> = processing::chain_for(&self.opts);
                let filter: String = match chain {
                    Some(t) => t,
                    None => String::new(),
                };
                let mut cmd: Vec<Arg> = self.encode_start(spawns);
                ffmpeg::add_filter_and_rate(&mut cmd, filter.as_str(), self.source_sr);
                self.encode_end(
                    &mut cmd,
                    Ghost(ffmpeg::filter_and_rate(filter@, self.source_sr)),
                );
                self.phase = Phase::Ended;
                (Action::Encode { cmd, result: NormResult::Skipped }, None)
            },
        }
    }

    fn measured(
        &mut self,
        spawns: &mut SpawnCounter,
        outcome: Result<(LoudnormStats, Option<Single>), String>,
    ) -> (r: (Action, Option<String>))
        requires
            old(spawns).count < u64::MAX,
        ensures
            final(self)@ == on_measured(old(self)@, outcome).job,
            r.0@ == on_measured(old(self)@, outcome).action,
            processing::held(r.1) == on_measured(old(self)@, outcome).log,
            final(spawns).count == old(spawns).count + cost(r.0@),
    {
        if self.phase == Phase::Standard {
            let (stats, log): (Option<LoudnormStats>, Option<String>) = FileJob::soften(
                "Standard",
                outcome,
            );
            let d: NormDecision = processing::decide_normalization(
                self.duration,
                stats.as_ref(),
                None,
                None,
                self.opts.target_peak_dbfs,
            );
            match d {
                NormDecision::Standard(_) => self.encode_decided(spawns, &d),
                _ => self.measure_padded(spawns, log),
            }
        } else {
            let (stats, log): (Option<LoudnormStats>, Option<String>) = FileJob::soften(
                "Padded",
                outcome,
            );
            let d: NormDecision = processing::decide_normalization(
                self.duration,
                None,
                stats.as_ref(),
                None,
                self.opts.target_peak_dbfs,
            );
            match d {
                NormDecision::Padded(_) => self.encode_decided(spawns, &d),
                _ => self.measure_peak(spawns, log),
            }
        }
    }

    fn peak_measured(&mut self, spawns: &mut SpawnCounter, peak: Option<Single>) -> (r: (
        Action,
        Option<String>,
    ))
        requires
            old(spawns).count < u64::MAX,
        ensures
            final(self)@ == on_peak_measured(old(self)@, peak).job,
            r.0@ == on_peak_measured(old(self)@, peak).action,
            processing::held(r.1) == on_peak_measured(old(self)@, peak).log,
            final(spawns).count == old(spawns).count + cost(r.0@),
    {
        let d: NormDecision = processing::decide_normalization(
            self.duration,
            None,
            None,
            peak,
            self.opts.target_peak_dbfs,
        );
        self.encode_decided(spawns, &d)
    }

    /// Goes on after an event: says what is to be done next, with a line for the log where there
    /// is one, and counts the process that this launches.
    #[verifier::spinoff_prover]
    pub fn next(&mut self, spawns: &mut SpawnCounter, event: Event) -> (r: (
        Action,
        Option<String>,
    ))
        requires
            fits(old(self).phase, event),
            old(spawns).count < u64::MAX,
        ensures
            final(self)@ == advance(old(self)@, event).job,
            r.0@ == advance(old(self)@, event).action,
            processing::held(r.1) == advance(old(self)@, event).log,
            final(spawns).count == old(spawns).count + cost(r.0@),
    {
        match event {
            Event::Begin => self.begin(spawns),
            Event::Probed { sample_rate, duration } => self.probed(spawns, sample_rate, duration),
            Event::Decoded { started, samples, success, stderr } => self.decoded(
                started,
                samples,
                success,
                stderr,
            ),
            Event::Processed(outcome) => self.processed(outcome),
            Event::Stored(outcome) => self.stored(spawns, outcome),
            Event::Measured(outcome) => self.measured(spawns, outcome),
            Event::PeakMeasured { peak } => self.peak_measured(spawns, peak),
        }
    }
}

// ---------------------------------------------------------------------------
// Laws
// ---------------------------------------------------------------------------

/// Each event is one that the job waits for when it comes.
pub open spec fn accepted(j: JobModel, events: Seq<Event>) -> bool
    decreases events.len(),
{
    events.len() == 0 || (fits(j.phase, events[0]) && accepted(
        advance(j, events[0]).job,
        events.skip(1),
    ))
}

/// The processes launched on the way through these events.
pub open spec fn total_cost(j: JobModel, events: Seq<Event>) -> nat
    decreases events.len(),
{
    if events.len() == 0 {
        0
    } else {
        cost(advance(j, events[0]).action) + total_cost(advance(j, events[0]).job, events.skip(1))
    }
}

/// Where the job stands after these events.
pub open spec fn after(j: JobModel, events: Seq<Event>) -> JobModel
    decreases events.len(),
{
    if events.len() == 0 {
        j
    } else {
        after(advance(j, events[0]).job, events.skip(1))
    }
}

/// The most processes that a job in this phase can still launch.
pub open spec fn at_most_left(o: ProcessingOptions, p: Phase) -> nat {
    let normalizes = o.target_lufs is Some;
    match p {
        Phase::Fresh => most_processes(o),
        Phase::Probing => if !o.automixer {
            4
        } else if normalizes {
            5
        } else {
            2
        },
        Phase::Decoding | Phase::Processing | Phase::Storing => if normalizes {
            4
        } else {
            1
        },
        Phase::Standard => 3,
        Phase::Padded => 2,
        Phase::Peak => 1,
        Phase::Ended => 0,
    }
}

/// The most processes that one file can take: the encode; a probe, where there is anything to
/// find out; the decoding pass of the automixer; and up to three measurements.
pub open spec fn most_processes(o: ProcessingOptions) -> nat {
    if o.automixer {
        if o.target_lufs is Some {
            6
        } else {
            3
        }
    } else if o.target_lufs is Some {
        5
    } else {
        1
    }
}

/// One step, and what can follow it, stays within what could follow before.
#[verifier::spinoff_prover]
proof fn lemma_step_is_bounded(j: JobModel, e: Event)
    requires
        fits(j.phase, e),
    ensures
        ({
            let s = advance(j, e);
            &&& s.job.opts == j.opts
            &&& cost(s.action) + at_most_left(s.job.opts, s.job.phase) <= at_most_left(
                j.opts,
                j.phase,
            )
        }),
{
}

/// What follows a job costs no more than its phase allows.
proof fn lemma_cost_is_bounded(j: JobModel, events: Seq<Event>)
    requires
        accepted(j, events),
    ensures
        total_cost(j, events) <= at_most_left(j.opts, j.phase),
    decreases events.len(),
{
    if events.len() > 0 {
        lemma_step_is_bounded(j, events[0]);
        lemma_cost_is_bounded(advance(j, events[0]).job, events.skip(1));
    }
}

/// Whatever happens on the way, one file never takes more processes than its budget, and the
/// silence trim does not change the budget.
pub proof fn a_file_stays_within_its_process_budget(
    opts: ProcessingOptions,
    lufs: Seq<char>,
    events: Seq<Event>,
)
    requires
        accepted(fresh(opts, lufs), events),
    ensures
        total_cost(fresh(opts, lufs), events) <= most_processes(opts),
        most_processes(opts) == most_processes(ProcessingOptions { trim_silence: false, ..opts }),
{
    lemma_cost_is_bounded(fresh(opts, lufs), events);
}

/// The probes among the actions on the way through these events.
pub open spec fn probes(j: JobModel, events: Seq<Event>) -> nat
    decreases events.len(),
{
    if events.len() == 0 {
        0
    } else {
        (if advance(j, events[0]).action is Probe {
            1nat
        } else {
            0nat
        }) + probes(advance(j, events[0]).job, events.skip(1))
    }
}

/// No step leads back to the start, and only the start probes.
#[verifier::spinoff_prover]
proof fn lemma_only_the_start_probes(j: JobModel, e: Event)
    requires
        fits(j.phase, e),
    ensures
        advance(j, e).job.phase != Phase::Fresh,
        advance(j, e).action is Probe ==> j.phase == Phase::Fresh,
{
}

proof fn lemma_probes_are_bounded(j: JobModel, events: Seq<Event>)
    requires
        accepted(j, events),
    ensures
        probes(j, events) <= if j.phase == Phase::Fresh {
            1nat
        } else {
            0nat
        },
    decreases events.len(),
{
    if events.len() > 0 {
        lemma_only_the_start_probes(j, events[0]);
        lemma_probes_are_bounded(advance(j, events[0]).job, events.skip(1));
    }
}

/// A file is probed once at most, and that is one process, though both its sample rate and its
/// duration are wanted; without normalization and without the automixer it is not probed at all.
pub proof fn a_file_is_probed_once(opts: ProcessingOptions, lufs: Seq<char>, events: Seq<Event>)
    requires
        accepted(fresh(opts, lufs), events),
    ensures
        probes(fresh(opts, lufs), events) <= 1,
        opts.automixer || opts.target_lufs is Some ==> on_begin(fresh(opts, lufs)).action is Probe
            && cost(on_begin(fresh(opts, lufs)).action) == 1,
        !opts.automixer && opts.target_lufs is None ==> probes(fresh(opts, lufs), events) == 0,
{
    lemma_probes_are_bounded(fresh(opts, lufs), events);
    if !opts.automixer && opts.target_lufs is None && events.len() > 0 {
        lemma_only_the_start_probes(fresh(opts, lufs), events[0]);
        lemma_probes_are_bounded(advance(fresh(opts, lufs), events[0]).job, events.skip(1));
    }
}

/// The first event, then the others.
pub open spec fn first_then(e: Event, rest: Seq<Event>) -> Seq<Event> {
    seq![e] + rest
}

/// How a job goes on; what that is stays folded up while steps are put together.
#[verifier::opaque]
spec fn hop(j: JobModel, e: Event) -> Step {
    advance(j, e)
}

/// What the first event and the others come to.
#[verifier::spinoff_prover]
proof fn lemma_first_then(j: JobModel, e: Event, rest: Seq<Event>)
    ensures
        accepted(j, first_then(e, rest)) == (fits(j.phase, e) && accepted(hop(j, e).job, rest)),
        total_cost(j, first_then(e, rest)) == cost(hop(j, e).action) + total_cost(
            hop(j, e).job,
            rest,
        ),
        after(j, first_then(e, rest)) == after(hop(j, e).job, rest),
{
    reveal(hop);
    let events: Seq<Event> = first_then(e, rest);
    assert(events[0] == e);
    assert(events.skip(1) =~= rest);
}

proof fn lemma_no_events(j: JobModel)
    ensures
        accepted(j, Seq::empty()),
        total_cost(j, Seq::empty()) == 0,
        after(j, Seq::empty()) == j,
{
}

/// A job that has anything to find out starts with a probe.
proof fn lemma_begins_by_probing(j: JobModel)
    requires
        j.opts.automixer || j.opts.target_lufs is Some,
    ensures
        hop(j, Event::Begin).job == at_phase(j, Phase::Probing),
        cost(hop(j, Event::Begin).action) == 1,
{
    reveal(hop);
}

/// A usable measurement of a file that is long enough is followed by the encode.
proof fn lemma_usable_measurement_ends(j: JobModel, stats: LoudnormStats, input_i: Single)
    requires
        j.phase == Phase::Standard,
        single::at_most(single::whole(3), j.duration),
        ffmpeg::usable(input_i),
    ensures
        ({
            let s = hop(j, Event::Measured(Ok((stats, Some(input_i)))));
            s.job.phase == Phase::Ended && cost(s.action) == 1
        }),
{
    reveal(hop);
}

/// With the automixer the probe is followed by the decoding pass.
proof fn lemma_probe_leads_to_decoding(
    j: JobModel,
    sample_rate: Option<u32>,
    duration: Option<Single>,
)
    requires
        j.opts.automixer,
    ensures
        ({
            let s = hop(j, Event::Probed { sample_rate, duration });
            &&& s.job.phase == Phase::Decoding
            &&& s.job.opts == j.opts
            &&& s.job.dsp_sr == if needs_48k(j.opts) {
                48_000
            } else {
                match sample_rate {
                    Some(r) => r,
                    None => 44100,
                }
            }
            &&& cost(s.action) == 1
        }),
{
    reveal(hop);
}

/// Samples that were decoded are processed.
proof fn lemma_decoding_leads_to_processing(j: JobModel, samples: usize, stderr: String)
    requires
        samples > 0,
    ensures
        ({
            let s = hop(
                j,
                Event::Decoded {
                    started: true,
                    samples: Decoding::Samples(samples),
                    success: Some(true),
                    stderr,
                },
            );
            s.job == at_phase(j, Phase::Processing) && cost(s.action) == 0
        }),
{
    reveal(hop);
}

/// Samples that were processed are stored.
proof fn lemma_processing_leads_to_storing(j: JobModel, len: usize, peak_db: Single)
    requires
        !all_below_threshold(j.opts, peak_db),
    ensures
        ({
            let s = hop(j, Event::Processed(Ok((len, peak_db))));
            &&& s.job.phase == Phase::Storing
            &&& s.job.opts == j.opts
            &&& s.job.dsp_sr == j.dsp_sr
            &&& s.job.duration == single::quotient(
                single::whole(len as int),
                single::whole(j.dsp_sr as int),
            )
            &&& cost(s.action) == 0
        }),
{
    reveal(hop);
}

/// The events of a file that is measured once and encoded, without the automixer.
pub open spec fn plain_run(probed: Event, measured: Event) -> Seq<Event> {
    first_then(Event::Begin, first_then(probed, first_then(measured, Seq::empty())))
}

/// The events of a file that is decoded, processed and stored.
pub open spec fn automixer_run(probed: Event, decoded: Event, processed: Event, rest: Seq<Event>) -> Seq<
    Event,
> {
    first_then(
        Event::Begin,
        first_then(
            probed,
            first_then(decoded, first_then(processed, first_then(Event::Stored(Ok(())), rest))),
        ),
    )
}

/// A file of 3 s or more whose first measurement is usable takes three processes: the probe, the
/// measurement, the encode. The trim, on or off, takes none.
#[verifier::spinoff_prover]
pub proof fn plain_conversion_costs_three_processes(
    opts: ProcessingOptions,
    lufs: Seq<char>,
    sample_rate: Option<u32>,
    duration: Single,
    stats: LoudnormStats,
    input_i: Single,
)
    requires
        !opts.automixer,
        opts.target_lufs is Some,
        single::at_most(single::whole(3), duration),
        ffmpeg::usable(input_i),
    ensures
        ({
            let events = plain_run(
                Event::Probed { sample_rate, duration: Some(duration) },
                Event::Measured(Ok((stats, Some(input_i)))),
            );
            &&& accepted(fresh(opts, lufs), events)
            &&& total_cost(fresh(opts, lufs), events) == 3
            &&& after(fresh(opts, lufs), events).phase == Phase::Ended
        }),
{
    let e1: Event = Event::Probed { sample_rate, duration: Some(duration) };
    let e2: Event = Event::Measured(Ok((stats, Some(input_i))));
    let j0: JobModel = fresh(opts, lufs);
    let j1: JobModel = hop(j0, Event::Begin).job;
    let j2: JobModel = hop(j1, e1).job;
    let j3: JobModel = hop(j2, e2).job;
    lemma_begins_by_probing(j0);
    assert(j2.phase == Phase::Standard && j2.duration == duration && j2.opts == opts && cost(
        hop(j1, e1).action,
    ) == 1) by {
        reveal(hop);
    }
    lemma_usable_measurement_ends(j2, stats, input_i);
    lemma_no_events(j3);
    lemma_first_then(j2, e2, Seq::empty());
    lemma_first_then(j1, e1, first_then(e2, Seq::empty()));
    lemma_first_then(j0, Event::Begin, first_then(e1, first_then(e2, Seq::empty())));
}

/// Without normalization and without the automixer a file takes one process, the encode; the
/// trim, on or off, takes none.
#[verifier::spinoff_prover]
pub proof fn plain_conversion_without_normalization_costs_one_process(
    opts: ProcessingOptions,
    lufs: Seq<char>,
)
    requires
        !opts.automixer,
        opts.target_lufs is None,
    ensures
        ({
            let events = first_then(Event::Begin, Seq::empty());
            &&& accepted(fresh(opts, lufs), events)
            &&& total_cost(fresh(opts, lufs), events) == 1
            &&& after(fresh(opts, lufs), events).phase == Phase::Ended
        }),
{
    let j0: JobModel = fresh(opts, lufs);
    reveal(hop);
    lemma_no_events(hop(j0, Event::Begin).job);
    lemma_first_then(j0, Event::Begin, Seq::empty());
}

#[verifier::spinoff_prover]
proof fn lemma_automixer_run(
    opts: ProcessingOptions,
    lufs: Seq<char>,
    sample_rate: Option<u32>,
    duration: Option<Single>,
    samples: usize,
    stderr: String,
    len: usize,
    peak_db: Single,
    rest: Seq<Event>,
) -> (j: JobModel)
    requires
        opts.automixer,
        samples > 0,
        !all_below_threshold(opts, peak_db),
    ensures
        ({
            let e1 = Event::Probed { sample_rate, duration };
            let e2 = Event::Decoded {
                started: true,
                samples: Decoding::Samples(samples),
                success: Some(true),
                stderr,
            };
            let e3 = Event::Processed(Ok((len, peak_db)));
            let e4 = Event::Stored(Ok(()));
            let s = hop(j, e4);
            &&& j.phase == Phase::Storing
            &&& j.opts == opts
            &&& j.dsp_sr == if needs_48k(opts) {
                48_000
            } else {
                match sample_rate {
                    Some(r) => r,
                    None => 44100,
                }
            }
            &&& j.duration == single::quotient(
                single::whole(len as int),
                single::whole(j.dsp_sr as int),
            )
            &&& accepted(fresh(opts, lufs), automixer_run(e1, e2, e3, rest)) == accepted(
                s.job,
                rest,
            )
            &&& total_cost(fresh(opts, lufs), automixer_run(e1, e2, e3, rest)) == 2 + cost(
                s.action,
            ) + total_cost(s.job, rest)
            &&& after(fresh(opts, lufs), automixer_run(e1, e2, e3, rest)) == after(s.job, rest)
        }),
{
    let e1: Event = Event::Probed { sample_rate, duration };
    let e2: Event = Event::Decoded {
        started: true,
        samples: Decoding::Samples(samples),
        success: Some(true),
        stderr,
    };
    let e3: Event = Event::Processed(Ok((len, peak_db)));
    let e4: Event = Event::Stored(Ok(()));
    let j0: JobModel = fresh(opts, lufs);
    let j1: JobModel = hop(j0, Event::Begin).job;
    let j2: JobModel = hop(j1, e1).job;
    let j3: JobModel = hop(j2, e2).job;
    let j4: JobModel = hop(j3, e3).job;
    lemma_begins_by_probing(j0);
    lemma_probe_leads_to_decoding(j1, sample_rate, duration);
    lemma_decoding_leads_to_processing(j2, samples, stderr);
    lemma_processing_leads_to_storing(j3, len, peak_db);
    let r4: Seq<Event> = first_then(e4, rest);
    let r3: Seq<Event> = first_then(e3, r4);
    let r2: Seq<Event> = first_then(e2, r3);
    let r1: Seq<Event> = first_then(e1, r2);
    lemma_first_then(j4, e4, rest);
    lemma_first_then(j3, e3, r4);
    lemma_first_then(j2, e2, r3);
    lemma_first_then(j1, e1, r2);
    lemma_first_then(j0, Event::Begin, r1);
    j4
}

/// With the automixer a file of 3 s or more whose first measurement is usable takes four
/// processes: the probe, the decoding pass, the measurement, the encode. The trim takes none.
#[verifier::spinoff_prover]
pub proof fn automixer_costs_four_processes(
    opts: ProcessingOptions,
    lufs: Seq<char>,
    sample_rate: u32,
    duration: Option<Single>,
    samples: usize,
    stderr: String,
    len: usize,
    peak_db: Single,
    stats: LoudnormStats,
    input_i: Single,
)
    requires
        opts.automixer,
        opts.target_lufs is Some,
        samples > 0,
        !all_below_threshold(opts, peak_db),
        single::at_most(
            single::whole(3),
            single::quotient(
                single::whole(len as int),
                single::whole(
                    if needs_48k(opts) {
                        48_000
                    } else {
                        sample_rate as int
                    },
                ),
            ),
        ),
        ffmpeg::usable(input_i),
    ensures
        ({
            let events = automixer_run(
                Event::Probed { sample_rate: Some(sample_rate), duration },
                Event::Decoded {
                    started: true,
                    samples: Decoding::Samples(samples),
                    success: Some(true),
                    stderr,
                },
                Event::Processed(Ok((len, peak_db))),
                first_then(Event::Measured(Ok((stats, Some(input_i)))), Seq::empty()),
            );
            &&& accepted(fresh(opts, lufs), events)
            &&& total_cost(fresh(opts, lufs), events) == 4
            &&& after(fresh(opts, lufs), events).phase == Phase::Ended
        }),
{
    let e5: Event = Event::Measured(Ok((stats, Some(input_i))));
    let rest: Seq<Event> = first_then(e5, Seq::empty());
    let j4: JobModel = lemma_automixer_run(
        opts,
        lufs,
        Some(sample_rate),
        duration,
        samples,
        stderr,
        len,
        peak_db,
        rest,
    );
    let j5: JobModel = hop(j4, Event::Stored(Ok(()))).job;
    assert(j5.phase == Phase::Standard && j5.duration == j4.duration && cost(
        hop(j4, Event::Stored(Ok(()))).action,
    ) == 1) by {
        reveal(hop);
    }
    lemma_usable_measurement_ends(j5, stats, input_i);
    lemma_no_events(hop(j5, e5).job);
    lemma_first_then(j5, e5, Seq::empty());
}

/// Without normalization the automixer takes three processes: the probe, the decoding pass, the
/// encode.
#[verifier::spinoff_prover]
pub proof fn automixer_without_normalization_costs_three_processes(
    opts: ProcessingOptions,
    lufs: Seq<char>,
    sample_rate: Option<u32>,
    duration: Option<Single>,
    samples: usize,
    stderr: String,
    len: usize,
    peak_db: Single,
)
    requires
        opts.automixer,
        opts.target_lufs is None,
        samples > 0,
        !all_below_threshold(opts, peak_db),
    ensures
        ({
            let events = automixer_run(
                Event::Probed { sample_rate, duration },
                Event::Decoded {
                    started: true,
                    samples: Decoding::Samples(samples),
                    success: Some(true),
                    stderr,
                },
                Event::Processed(Ok((len, peak_db))),
                Seq::empty(),
            );
            &&& accepted(fresh(opts, lufs), events)
            &&& total_cost(fresh(opts, lufs), events) == 3
            &&& after(fresh(opts, lufs), events).phase == Phase::Ended
        }),
{
    let j4: JobModel = lemma_automixer_run(
        opts,
        lufs,
        sample_rate,
        duration,
        samples,
        stderr,
        len,
        peak_db,
        Seq::empty(),
    );
    assert(hop(j4, Event::Stored(Ok(()))).job.phase == Phase::Ended && cost(
        hop(j4, Event::Stored(Ok(()))).action,
    ) == 1) by {
        reveal(hop);
    }
    lemma_no_events(hop(j4, Event::Stored(Ok(()))).job);
}

/// The job has come this far on its way: only the automixer decodes, processes and stores, and
/// from then on the stored samples are read.
spec fn on_its_way(j: JobModel) -> bool {
    &&& j.phase == Phase::Decoding || j.phase == Phase::Processing || j.phase == Phase::Storing
        ==> j.opts.automixer
    &&& j.phase == Phase::Standard || j.phase == Phase::Padded || j.phase == Phase::Peak
        ==> j.source == source_of(j.opts)
    &&& j.phase == Phase::Fresh || j.phase == Phase::Probing || j.phase == Phase::Decoding
        || j.phase == Phase::Processing || j.phase == Phase::Storing ==> j.source == Source::Input
}

/// What is measured and encoded: with the automixer the processed samples, else the input.
pub open spec fn source_of(o: ProcessingOptions) -> Source {
    if o.automixer {
        Source::Stored
    } else {
        Source::Input
    }
}

/// The filters of the command line start with these, if there are any.
pub open spec fn runs_behind(cmd: Seq<ArgModel>, chain: Option<Seq<char>>) -> bool {
    chain matches Some(t) ==> {
        &&& cmd[6] == args::word("-af"@)
        &&& cmd[7] == args::word(t) || exists|rest: Seq<char>|
            cmd[7] == args::word(#[trigger] ffmpeg::behind(chain, rest))
    }
}

/// What an action reads, and which filters it starts with.
pub open spec fn measures_or_encodes_as(s: Step, o: ProcessingOptions, lufs: Seq<char>) -> bool {
    let chain = processing::chain_text(o);
    let source = source_of(o);
    match s.action {
        ActionModel::Probe { cmd } => args::reads_only(cmd, Source::Input),
        ActionModel::Decode { cmd, .. } => args::reads_only(cmd, Source::Input),
        ActionModel::MeasureStandard { cmd } => cmd == ffmpeg::opening()
            + ffmpeg::measurement_tail(
            source,
            ffmpeg::behind(chain, ffmpeg::loudnorm_measure(lufs)),
        ),
        ActionModel::MeasurePadded { .. } => forall|pad: Seq<char>| #[trigger]
            padded_cmd(s.job, pad) == ffmpeg::opening() + ffmpeg::measurement_tail(
                source,
                ffmpeg::behind(chain, ffmpeg::padded_measure(lufs, pad)),
            ),
        ActionModel::MeasurePeak { cmd } => cmd == ffmpeg::opening() + ffmpeg::measurement_tail(
            source,
            ffmpeg::behind(chain, "volumedetect"@),
        ),
        ActionModel::Encode { cmd, .. } => runs_behind(cmd, chain) && args::reads_only(cmd, source),
        ActionModel::Process { .. } | ActionModel::Store { .. } | ActionModel::Fail { .. } => true,
    }
}

/// The arguments of a normalization start with its filters, and name no file.
proof fn lemma_norm_args(d: NormDecision, lufs: Seq<char>, sr: u32, chain: Option<Seq<char>>)
    ensures
        ({
            let a = processing::norm_args(d, lufs, sr, chain);
            &&& forall|i: int| 0 <= i < a.len() ==> #[trigger] a[i] is Text
            &&& a.len() >= 2
            &&& chain matches Some(t) ==> {
                &&& a[0] == args::word("-af"@)
                &&& a[1] == args::word(t) || exists|rest: Seq<char>|
                    a[1] == args::word(#[trigger] ffmpeg::behind(chain, rest))
            }
        }),
{
    let a: Seq<ArgModel> = processing::norm_args(d, lufs, sr, chain);
    match d {
        NormDecision::Standard(stats) => {
            assert(a[1] == args::word(ffmpeg::behind(chain, ffmpeg::loudnorm_apply(lufs, stats))));
        },
        NormDecision::Padded(stats) => {
            assert(a[1] == args::word(ffmpeg::behind(chain, ffmpeg::loudnorm_apply(lufs, stats))));
        },
        NormDecision::Peak { gain_db } => {
            let rest: Seq<char> = "volume="@ + fixed::fixed(gain_db, 4) + "dB"@;
            assert(a[1] == args::word(ffmpeg::behind(chain, rest)));
        },
        NormDecision::Skipped => {},
    }
}

/// An encode reads from its source alone, and its filters are where the ones handed in are.
proof fn lemma_encode_cmd(source: Source, o: ProcessingOptions, filters: Seq<ArgModel>)
    requires
        forall|i: int| 0 <= i < filters.len() ==> #[trigger] filters[i] is Text,
    ensures
        args::reads_only(encode_cmd(source, o, filters), source),
        filters.len() >= 2 ==> encode_cmd(source, o, filters)[6] == filters[0] && encode_cmd(
            source,
            o,
            filters,
        )[7] == filters[1],
{
    let cmd: Seq<ArgModel> = encode_cmd(source, o, filters);
    let head: Seq<ArgModel> = encode_head(source);
    let format: Seq<ArgModel> = processing::format_args(o.output_format, o.bitrate_kbps);
    assert(head.len() == 6);
    assert(cmd[4] == args::read_from(source));
    assert(forall|i: int| 0 <= i < format.len() ==> #[trigger] format[i] is Text);
    assert forall|i: int|
        0 <= i < cmd.len() && (#[trigger] cmd[i] is Input || cmd[i] is Stored) implies cmd[i]
        == args::read_from(source) by {
        if i < 6 {
            assert(cmd[i] == head[i]);
        } else if i < 6 + filters.len() {
            assert(cmd[i] == filters[i - 6]);
        } else if i < 6 + filters.len() + format.len() {
            assert(cmd[i] == format[i - 6 - filters.len()]);
        }
    }
}

/// The probe and the decoding pass read the input.
proof fn lemma_first_passes_read_the_input(dsp_sr: u32)
    ensures
        args::reads_only(ffmpeg::opening() + ffmpeg::probe_tail(), Source::Input),
        args::reads_only(decode_cmd(dsp_sr), Source::Input),
{
    assert((ffmpeg::opening() + ffmpeg::probe_tail())[3] is Input);
    assert(decode_cmd(dsp_sr)[4] is Input);
}

proof fn lemma_encode_decided(j: JobModel, d: NormDecision)
    requires
        j.source == source_of(j.opts),
    ensures
        measures_or_encodes_as(encode_decided(j, d), j.opts, j.lufs),
{
    let chain: Option<Seq<char>> = processing::chain_text(j.opts);
    let filters: Seq<ArgModel> = processing::norm_args(d, j.lufs, j.source_sr, chain);
    lemma_norm_args(d, j.lufs, j.source_sr, chain);
    lemma_encode_cmd(j.source, j.opts, filters);
}

/// A step from `j` to `s` keeps a job on its way, and its action reads what it should.
spec fn proceeds(j: JobModel, s: Step) -> bool {
    &&& on_its_way(s.job)
    &&& s.job.opts == j.opts
    &&& s.job.lufs == j.lufs
    &&& measures_or_encodes_as(s, j.opts, j.lufs)
}

proof fn lemma_begin_proceeds(j: JobModel)
    requires
        j.phase == Phase::Fresh,
        on_its_way(j),
    ensures
        proceeds(j, on_begin(j)),
{
    let filters: Seq<ArgModel> = match processing::chain_text(j.opts) {
        Some(t) => seq![args::word("-af"@), args::word(t)],
        None => Seq::empty(),
    };
    lemma_encode_cmd(j.source, j.opts, filters);
    lemma_first_passes_read_the_input(0);
}

proof fn lemma_probed_proceeds(j: JobModel, sample_rate: Option<u32>, duration: Option<Single>)
    requires
        j.phase == Phase::Probing,
        on_its_way(j),
    ensures
        proceeds(j, on_probed(j, sample_rate, duration)),
{
    lemma_first_passes_read_the_input(on_probed(j, sample_rate, duration).job.dsp_sr);
}

proof fn lemma_stored_proceeds(j: JobModel, outcome: Result<(), String>)
    requires
        j.phase == Phase::Storing,
        on_its_way(j),
    ensures
        proceeds(j, on_stored(j, outcome)),
{
    let filter: Seq<char> = match processing::chain_text(j.opts) {
        Some(t) => t,
        None => Seq::empty(),
    };
    lemma_encode_cmd(Source::Stored, j.opts, ffmpeg::filter_and_rate(filter, j.source_sr));
}

proof fn lemma_measured_proceeds(
    j: JobModel,
    outcome: Result<(LoudnormStats, Option<Single>), String>,
)
    requires
        j.phase == Phase::Standard || j.phase == Phase::Padded,
        on_its_way(j),
    ensures
        proceeds(j, on_measured(j, outcome)),
{
    let target: Single = j.opts.target_peak_dbfs;
    if j.phase == Phase::Standard {
        let stats: Option<LoudnormStats> = softened("Standard"@, outcome).0;
        lemma_encode_decided(
            j,
            processing::decision(j.duration, borrowed(&stats), None, None, target),
        );
    } else {
        let stats: Option<LoudnormStats> = softened("Padded"@, outcome).0;
        lemma_encode_decided(
            j,
            processing::decision(j.duration, None, borrowed(&stats), None, target),
        );
    }
}

/// One step of a job on its way.
#[verifier::spinoff_prover]
proof fn lemma_step_proceeds(j: JobModel, e: Event)
    requires
        fits(j.phase, e),
        on_its_way(j),
    ensures
        proceeds(j, advance(j, e)),
{
    match e {
        Event::Begin => {
            lemma_begin_proceeds(j);
        },
        Event::Probed { sample_rate, duration } => {
            lemma_probed_proceeds(j, sample_rate, duration);
        },
        Event::Stored(outcome) => {
            lemma_stored_proceeds(j, outcome);
        },
        Event::Measured(outcome) => {
            lemma_measured_proceeds(j, outcome);
        },
        Event::PeakMeasured { peak } => {
            lemma_encode_decided(
                j,
                processing::decision(j.duration, None, None, peak, j.opts.target_peak_dbfs),
            );
        },
        Event::Decoded { .. } => {},
        Event::Processed(_) => {},
    }
}

proof fn lemma_stays_on_its_way(j: JobModel, events: Seq<Event>)
    requires
        accepted(j, events),
        on_its_way(j),
    ensures
        on_its_way(after(j, events)),
        after(j, events).opts == j.opts,
        after(j, events).lufs == j.lufs,
    decreases events.len(),
{
    if events.len() > 0 {
        lemma_step_proceeds(j, events[0]);
        lemma_stays_on_its_way(advance(j, events[0]).job, events.skip(1));
    }
}

/// What is measured is what is encoded, whatever happened on the way: every measurement and every
/// encode, normalized or not, reads the same source, which with the automixer is the processed
/// samples and not the input, and runs behind the same filters. The passes before them read the
/// input.
pub proof fn what_is_measured_is_what_is_encoded(
    opts: ProcessingOptions,
    lufs: Seq<char>,
    events: Seq<Event>,
    e: Event,
)
    requires
        accepted(fresh(opts, lufs), events),
        fits(after(fresh(opts, lufs), events).phase, e),
    ensures
        measures_or_encodes_as(advance(after(fresh(opts, lufs), events), e), opts, lufs),
{
    lemma_stays_on_its_way(fresh(opts, lufs), events);
    lemma_step_proceeds(after(fresh(opts, lufs), events), e);
}

/// The order of the stages: the noise floor is estimated on the untouched signal, the reverb is
/// removed before the expander runs, at most one denoiser runs, and the equalizer comes last, at
/// half strength.
pub proof fn the_stages_keep_their_order(o: ProcessingOptions)
    ensures
        ({
            let s = stages(o);
            &&& s.last() == Stage::VoiceEq { strength: single::ratio(1, 2) }
            &&& s[0] is EstimateNoiseFloor <==> o.automixer_expander
            &&& !(s.contains(Stage::SpectralGate) && s.contains(Stage::Denoise))
            &&& forall|i: int, k: int|
                0 <= i < s.len() && 0 <= k < s.len() && s[i] is Dereverb && s[k] is Expand ==> i < k
            &&& forall|i: int, k: int|
                0 <= i < s.len() && 0 <= k < s.len() && (s[i] is Expand || s[i] is Dereverb) && (
                s[k] is SpectralGate || s[k] is Denoise) ==> i < k
        }),
{
}

} // verus!
