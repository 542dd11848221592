//! The choices that drive a conversion, and what comes back from one.

use vstd::prelude::*;

use crate::single;
use crate::single::Single;

verus! {

// ---------------------------------------------------------------------------
// Expander reduction profile
// ---------------------------------------------------------------------------

/// Preset reduction depth for the downward expander.
///
/// Each variant stands for a fixed maximum attenuation in dB: the expander is bounded, never a
/// true gate to minus infinity.
#[derive(Clone, Copy, PartialEq, Eq, Debug, Structural)]
pub enum ReductionProfile {
    /// -8 dB: gentle, barely audible.
    Safe,
    /// -12 dB: balanced default.
    Recommended,
    /// -18 dB: aggressive but still bounded.
    Hard,
    /// -32 dB: an outlier that can start to sound like a hard gate.
    Max,
}

impl ReductionProfile {
    /// The maximum attenuation in whole dB.
    pub open spec fn whole_db(self) -> int {
        match self {
            ReductionProfile::Safe => -8,
            ReductionProfile::Recommended => -12,
            ReductionProfile::Hard => -18,
            ReductionProfile::Max => -32,
        }
    }

    /// All variants in dropdown order.
    pub open spec fn every() -> Seq<ReductionProfile> {
        seq![
            ReductionProfile::Safe,
            ReductionProfile::Recommended,
            ReductionProfile::Hard,
            ReductionProfile::Max,
        ]
    }

    /// The label in the dropdown.
    pub open spec fn label_text(self) -> Seq<char> {
        match self {
            ReductionProfile::Safe => "Safe (-8.0 dB)"@,
            ReductionProfile::Recommended => "Recommended (-12.0 dB)"@,
            ReductionProfile::Hard => "Hard (-18.0 dB)"@,
            ReductionProfile::Max => "MAX (-32.0 dB)"@,
        }
    }

    /// The maximum attenuation in dB.
    pub fn db(self) -> (r: Single)
        ensures
            r == single::whole(self.whole_db()),
    {
        match self {
            ReductionProfile::Safe => Single::from_i32(-8),
            ReductionProfile::Recommended => Single::from_i32(-12),
            ReductionProfile::Hard => Single::from_i32(-18),
            ReductionProfile::Max => Single::from_i32(-32),
        }
    }

    /// The label in the dropdown.
    pub fn label(self) -> (r: &'static str)
        ensures
            r@ == self.label_text(),
    {
        match self {
            ReductionProfile::Safe => "Safe (-8.0 dB)",
            ReductionProfile::Recommended => "Recommended (-12.0 dB)",
            ReductionProfile::Hard => "Hard (-18.0 dB)",
            ReductionProfile::Max => "MAX (-32.0 dB)",
        }
    }

    /// All variants in dropdown order.
    pub fn all() -> (r: &'static [ReductionProfile])
        ensures
            r@ == ReductionProfile::every(),
    {
        &[
            ReductionProfile::Safe,
            ReductionProfile::Recommended,
            ReductionProfile::Hard,
            ReductionProfile::Max,
        ]
    }
}

impl Default for ReductionProfile {
    fn default() -> (r: Self)
        ensures
            r == ReductionProfile::Recommended,
    {
        ReductionProfile::Recommended
    }
}

// ---------------------------------------------------------------------------
// Silence trim presets
// ---------------------------------------------------------------------------

/// What counts as silence when trimming the ends of a take.
///
/// The variants are ordered by how much they risk: too low a threshold trims nothing, too high a
/// one eats the first word.
#[derive(Clone, Copy, PartialEq, Eq, Debug, Structural)]
pub enum SilenceThreshold {
    /// -60 dB: only silence close to digital zero.
    Safe,
    /// -45 dB: balanced default, right for clean studio material.
    Recommended,
    /// -32 dB: copes with an untreated room; can eat a quiet breath.
    Hard,
    /// -21 dB: an outlier that cuts quiet consonants and the tails of words.
    Max,
}

impl SilenceThreshold {
    /// The threshold in whole dB.
    pub open spec fn whole_db(self) -> int {
        match self {
            SilenceThreshold::Safe => -60,
            SilenceThreshold::Recommended => -45,
            SilenceThreshold::Hard => -32,
            SilenceThreshold::Max => -21,
        }
    }

    /// All variants in dropdown order.
    pub open spec fn every() -> Seq<SilenceThreshold> {
        seq![
            SilenceThreshold::Safe,
            SilenceThreshold::Recommended,
            SilenceThreshold::Hard,
            SilenceThreshold::Max,
        ]
    }

    /// The label in the dropdown.
    pub open spec fn label_text(self) -> Seq<char> {
        match self {
            SilenceThreshold::Safe => "Safe (-60 dB)"@,
            SilenceThreshold::Recommended => "Recommended (-45 dB)"@,
            SilenceThreshold::Hard => "Hard (-32 dB)"@,
            SilenceThreshold::Max => "MAX (-21 dB)"@,
        }
    }

    /// The level in dB below which audio is treated as silence.
    pub fn db(self) -> (r: Single)
        ensures
            r == single::whole(self.whole_db()),
    {
        match self {
            SilenceThreshold::Safe => Single::from_i32(-60),
            SilenceThreshold::Recommended => Single::from_i32(-45),
            SilenceThreshold::Hard => Single::from_i32(-32),
            SilenceThreshold::Max => Single::from_i32(-21),
        }
    }

    /// The label in the dropdown.
    pub fn label(self) -> (r: &'static str)
        ensures
            r@ == self.label_text(),
    {
        match self {
            SilenceThreshold::Safe => "Safe (-60 dB)",
            SilenceThreshold::Recommended => "Recommended (-45 dB)",
            SilenceThreshold::Hard => "Hard (-32 dB)",
            SilenceThreshold::Max => "MAX (-21 dB)",
        }
    }

    /// All variants in dropdown order.
    pub fn all() -> (r: &'static [SilenceThreshold])
        ensures
            r@ == SilenceThreshold::every(),
    {
        &[
            SilenceThreshold::Safe,
            SilenceThreshold::Recommended,
            SilenceThreshold::Hard,
            SilenceThreshold::Max,
        ]
    }
}

impl Default for SilenceThreshold {
    fn default() -> (r: Self)
        ensures
            r == SilenceThreshold::Recommended,
    {
        SilenceThreshold::Recommended
    }
}

/// How much of the original silence to leave at each end of a trimmed take.
///
/// A ceiling, not a target: the filter keeps up to this much of the silence that was already in
/// the file and never makes any.
#[derive(Clone, Copy, PartialEq, Eq, Debug, Structural)]
pub enum SilencePad {
    /// 0 ms: cut at the first and last sample above the threshold.
    Tight,
    /// 0.25 s.
    Short,
    /// 0.5 s.
    Medium,
    /// 1 s.
    Long,
}

impl SilencePad {
    /// The silence kept at each end, in quarters of a second.
    pub open spec fn quarters(self) -> int {
        match self {
            SilencePad::Tight => 0,
            SilencePad::Short => 1,
            SilencePad::Medium => 2,
            SilencePad::Long => 4,
        }
    }

    /// All variants in dropdown order.
    pub open spec fn every() -> Seq<SilencePad> {
        seq![
            SilencePad::Tight,
            SilencePad::Short,
            SilencePad::Medium,
            SilencePad::Long,
        ]
    }

    /// The label in the dropdown.
    pub open spec fn label_text(self) -> Seq<char> {
        match self {
            SilencePad::Tight => "Tight (0 ms)"@,
            SilencePad::Short => "Short (0.25 s)"@,
            SilencePad::Medium => "Medium (0.5 s)"@,
            SilencePad::Long => "Long (1 s)"@,
        }
    }

    /// The silence kept at each end, in seconds.
    pub fn secs(self) -> (r: Single)
        ensures
            r == single::ratio(self.quarters(), 4),
    {
        match self {
            SilencePad::Tight => Single::of_ratio(0, 4),
            SilencePad::Short => Single::of_ratio(1, 4),
            SilencePad::Medium => Single::of_ratio(2, 4),
            SilencePad::Long => Single::of_ratio(4, 4),
        }
    }

    /// The label in the dropdown.
    pub fn label(self) -> (r: &'static str)
        ensures
            r@ == self.label_text(),
    {
        match self {
            SilencePad::Tight => "Tight (0 ms)",
            SilencePad::Short => "Short (0.25 s)",
            SilencePad::Medium => "Medium (0.5 s)",
            SilencePad::Long => "Long (1 s)",
        }
    }

    /// All variants in dropdown order.
    pub fn all() -> (r: &'static [SilencePad])
        ensures
            r@ == SilencePad::every(),
    {
        &[
            SilencePad::Tight,
            SilencePad::Short,
            SilencePad::Medium,
            SilencePad::Long,
        ]
    }
}

impl Default for SilencePad {
    fn default() -> (r: Self)
        ensures
            r == SilencePad::Tight,
    {
        SilencePad::Tight
    }
}

// ---------------------------------------------------------------------------
// Measurements and messages
// ---------------------------------------------------------------------------

/// What the `loudnorm` filter measured, as the decimal texts that it printed.
#[derive(Debug, PartialEq)]
pub struct LoudnormStats {
    pub input_i: String,
    pub input_tp: String,
    pub input_lra: String,
    pub input_thresh: String,
    pub target_offset: String,
}

impl Clone for LoudnormStats {
    fn clone(&self) -> (r: Self)
        ensures
            r == *self,
    {
        LoudnormStats {
            input_i: self.input_i.clone(),
            input_tp: self.input_tp.clone(),
            input_lra: self.input_lra.clone(),
            input_thresh: self.input_thresh.clone(),
            target_offset: self.target_offset.clone(),
        }
    }
}

/// The normalization method used for a file, for the log.
#[derive(Clone, Copy, PartialEq, Eq, Debug, Structural)]
pub enum NormResult {
    /// Two-pass EBU R128.
    Standard,
    /// Two-pass EBU R128 measured on a copy padded with silence.
    Padded,
    /// Peak normalization, where no EBU R128 measurement gave a usable loudness.
    Peak { gain_db: Single },
    /// Conversion without normalization.
    Skipped,
}

/// What the workers tell the window.
pub enum AppMsg {
    Log(String),
    Progress(usize, usize),
    Error(String),
    Finished,
    Stopped,
    AnalysisResult(Single),
}

// ---------------------------------------------------------------------------
// Output format
// ---------------------------------------------------------------------------

/// Output container and codec.
#[derive(Clone, Copy, PartialEq, Eq, Debug, Structural)]
pub enum OutputFormat {
    /// 4-bit IMA ADPCM WAV, the smallest practical format for game voice-over (default).
    AdpcmWav,
    /// 16-bit PCM WAV.
    Pcm16Wav,
    /// 24-bit PCM WAV.
    Pcm24Wav,
    /// FLAC.
    Flac,
    /// MP3.
    Mp3,
    /// OGG Vorbis.
    Ogg,
}

impl OutputFormat {
    /// FFmpeg's name of the codec.
    pub open spec fn codec_text(self) -> Seq<char> {
        match self {
            OutputFormat::AdpcmWav => "adpcm_ima_wav"@,
            OutputFormat::Pcm16Wav => "pcm_s16le"@,
            OutputFormat::Pcm24Wav => "pcm_s24le"@,
            OutputFormat::Flac => "flac"@,
            OutputFormat::Mp3 => "libmp3lame"@,
            OutputFormat::Ogg => "libvorbis"@,
        }
    }

    /// The extension of the files.
    pub open spec fn extension_text(self) -> Seq<char> {
        match self {
            OutputFormat::AdpcmWav => "wav"@,
            OutputFormat::Pcm16Wav => "wav"@,
            OutputFormat::Pcm24Wav => "wav"@,
            OutputFormat::Flac => "flac"@,
            OutputFormat::Mp3 => "mp3"@,
            OutputFormat::Ogg => "ogg"@,
        }
    }

    /// The format is lossy and takes a bitrate.
    pub open spec fn lossy(self) -> bool {
        self == OutputFormat::Mp3 || self == OutputFormat::Ogg
    }

    /// All variants in dropdown order.
    pub open spec fn every() -> Seq<OutputFormat> {
        seq![
            OutputFormat::AdpcmWav,
            OutputFormat::Pcm16Wav,
            OutputFormat::Pcm24Wav,
            OutputFormat::Flac,
            OutputFormat::Mp3,
            OutputFormat::Ogg,
        ]
    }

    /// The label in the dropdown.
    pub open spec fn label_text(self) -> Seq<char> {
        match self {
            OutputFormat::AdpcmWav => "4-bit ADPCM WAV (suggested for game VO)"@,
            OutputFormat::Pcm16Wav => "16-bit PCM WAV"@,
            OutputFormat::Pcm24Wav => "24-bit PCM WAV (industry standard)"@,
            OutputFormat::Flac => "FLAC (lossless)"@,
            OutputFormat::Mp3 => "MP3"@,
            OutputFormat::Ogg => "OGG Vorbis"@,
        }
    }

    /// FFmpeg's name of the codec, the value of `-c:a`.
    pub fn ffmpeg_codec(&self) -> (r: &'static str)
        ensures
            r@ == self.codec_text(),
    {
        match self {
            OutputFormat::AdpcmWav => "adpcm_ima_wav",
            OutputFormat::Pcm16Wav => "pcm_s16le",
            OutputFormat::Pcm24Wav => "pcm_s24le",
            OutputFormat::Flac => "flac",
            OutputFormat::Mp3 => "libmp3lame",
            OutputFormat::Ogg => "libvorbis",
        }
    }

    /// The file extension, without the dot.
    pub fn extension(&self) -> (r: &'static str)
        ensures
            r@ == self.extension_text(),
    {
        match self {
            OutputFormat::AdpcmWav | OutputFormat::Pcm16Wav | OutputFormat::Pcm24Wav => "wav",
            OutputFormat::Flac => "flac",
            OutputFormat::Mp3 => "mp3",
            OutputFormat::Ogg => "ogg",
        }
    }

    /// Whether the format is lossy and takes a bitrate.
    pub fn needs_bitrate(&self) -> (r: bool)
        ensures
            r == self.lossy(),
    {
        matches!(self, OutputFormat::Mp3 | OutputFormat::Ogg)
    }

    /// The label in the dropdown.
    pub fn label(&self) -> (r: &'static str)
        ensures
            r@ == self.label_text(),
    {
        match self {
            OutputFormat::AdpcmWav => "4-bit ADPCM WAV (suggested for game VO)",
            OutputFormat::Pcm16Wav => "16-bit PCM WAV",
            OutputFormat::Pcm24Wav => "24-bit PCM WAV (industry standard)",
            OutputFormat::Flac => "FLAC (lossless)",
            OutputFormat::Mp3 => "MP3",
            OutputFormat::Ogg => "OGG Vorbis",
        }
    }

    /// All variants in dropdown order.
    pub fn all() -> (r: &'static [OutputFormat])
        ensures
            r@ == OutputFormat::every(),
    {
        &[
            OutputFormat::AdpcmWav,
            OutputFormat::Pcm16Wav,
            OutputFormat::Pcm24Wav,
            OutputFormat::Flac,
            OutputFormat::Mp3,
            OutputFormat::Ogg,
        ]
    }
}

impl Default for OutputFormat {
    fn default() -> (r: Self)
        ensures
            r == OutputFormat::AdpcmWav,
    {
        OutputFormat::AdpcmWav
    }
}

// ---------------------------------------------------------------------------
// Processing options
// ---------------------------------------------------------------------------

/// Everything that says how one file is to be processed.
#[derive(Clone, Copy, Debug)]
pub struct ProcessingOptions {
    pub target_lufs: Option<Single>,
    pub target_peak_dbfs: Single,
    pub automixer: bool,
    pub automixer_spectral_gate: bool,
    pub automixer_nn_dereverb: bool,
    pub automixer_dfn3_dereverb: bool,
    pub automixer_dfn3_mix: Single,
    pub automixer_dfn3_postfilter: bool,
    /// The downward expander, driven by the noise floor.
    pub automixer_expander: bool,
    /// 0 to 100; higher is more conservative.
    pub automixer_expander_safety_pct: Single,
    pub automixer_expander_reduction_profile: ReductionProfile,
    /// Trims leading and trailing silence, with the automixer on or off.
    pub trim_silence: bool,
    /// What counts as silence for the trim. Ignored when `trim_silence` is off.
    pub trim_silence_threshold: SilenceThreshold,
    /// How much silence the trim leaves at each end. Ignored when `trim_silence` is off.
    pub trim_silence_pad: SilencePad,
    pub output_format: OutputFormat,
    /// Bitrate in kbps for lossy formats. Ignored for lossless ones.
    pub bitrate_kbps: u32,
}

impl ProcessingOptions {
    /// The options that the application starts with.
    pub open spec fn initial() -> ProcessingOptions {
        ProcessingOptions {
            target_lufs: None,
            target_peak_dbfs: single::whole(-3),
            automixer: false,
            automixer_spectral_gate: false,
            automixer_nn_dereverb: false,
            automixer_dfn3_dereverb: false,
            automixer_dfn3_mix: single::whole(80),
            automixer_dfn3_postfilter: false,
            automixer_expander: false,
            automixer_expander_safety_pct: single::whole(50),
            automixer_expander_reduction_profile: ReductionProfile::Recommended,
            trim_silence: false,
            trim_silence_threshold: SilenceThreshold::Recommended,
            trim_silence_pad: SilencePad::Tight,
            output_format: OutputFormat::AdpcmWav,
            bitrate_kbps: 128,
        }
    }
}

impl Default for ProcessingOptions {
    fn default() -> (r: Self)
        ensures
            r == ProcessingOptions::initial(),
    {
        ProcessingOptions {
            target_lufs: None,
            target_peak_dbfs: Single::from_i32(-3),
            automixer: false,
            automixer_spectral_gate: false,
            automixer_nn_dereverb: false,
            automixer_dfn3_dereverb: false,
            automixer_dfn3_mix: Single::from_i32(80),
            automixer_dfn3_postfilter: false,
            automixer_expander: false,
            automixer_expander_safety_pct: Single::from_i32(50),
            automixer_expander_reduction_profile: ReductionProfile::Recommended,
            trim_silence: false,
            trim_silence_threshold: SilenceThreshold::Recommended,
            trim_silence_pad: SilencePad::Tight,
            output_format: OutputFormat::AdpcmWav,
            bitrate_kbps: 128,
        }
    }
}

// ---------------------------------------------------------------------------
// Laws
// ---------------------------------------------------------------------------

/// The dropdown offers every variant of [`ReductionProfile`], each once.
pub proof fn reduction_profile_dropdown_is_complete(v: ReductionProfile)
    ensures
        ReductionProfile::every().contains(v),
        ReductionProfile::every().no_duplicates(),
{
    assert(ReductionProfile::every()[0] == ReductionProfile::Safe);
    assert(ReductionProfile::every()[1] == ReductionProfile::Recommended);
    assert(ReductionProfile::every()[2] == ReductionProfile::Hard);
    assert(ReductionProfile::every()[3] == ReductionProfile::Max);
}

/// The dropdown offers every variant of [`SilenceThreshold`], each once.
pub proof fn silence_threshold_dropdown_is_complete(v: SilenceThreshold)
    ensures
        SilenceThreshold::every().contains(v),
        SilenceThreshold::every().no_duplicates(),
{
    assert(SilenceThreshold::every()[0] == SilenceThreshold::Safe);
    assert(SilenceThreshold::every()[1] == SilenceThreshold::Recommended);
    assert(SilenceThreshold::every()[2] == SilenceThreshold::Hard);
    assert(SilenceThreshold::every()[3] == SilenceThreshold::Max);
}

/// The dropdown offers every variant of [`SilencePad`], each once.
pub proof fn silence_pad_dropdown_is_complete(v: SilencePad)
    ensures
        SilencePad::every().contains(v),
        SilencePad::every().no_duplicates(),
{
    assert(SilencePad::every()[0] == SilencePad::Tight);
    assert(SilencePad::every()[1] == SilencePad::Short);
    assert(SilencePad::every()[2] == SilencePad::Medium);
    assert(SilencePad::every()[3] == SilencePad::Long);
}

/// The dropdown offers every variant of [`OutputFormat`], each once.
pub proof fn output_format_dropdown_is_complete(v: OutputFormat)
    ensures
        OutputFormat::every().contains(v),
        OutputFormat::every().no_duplicates(),
{
    assert(OutputFormat::every()[0] == OutputFormat::AdpcmWav);
    assert(OutputFormat::every()[1] == OutputFormat::Pcm16Wav);
    assert(OutputFormat::every()[2] == OutputFormat::Pcm24Wav);
    assert(OutputFormat::every()[3] == OutputFormat::Flac);
    assert(OutputFormat::every()[4] == OutputFormat::Mp3);
    assert(OutputFormat::every()[5] == OutputFormat::Ogg);
}

/// The thresholds stand in the dropdown from the least to the most aggressive: each is strictly
/// above the one before it, and the last one is [`SilenceThreshold::Max`].
pub proof fn thresholds_are_a_risk_ladder(i: int, j: int)
    requires
        0 <= i < j < SilenceThreshold::every().len(),
    ensures
        single::less(
            single::whole(SilenceThreshold::every()[i].whole_db()),
            single::whole(SilenceThreshold::every()[j].whole_db()),
        ),
        SilenceThreshold::every().last() == SilenceThreshold::Max,
{
    single::lemma_whole_exact(SilenceThreshold::every()[i].whole_db());
    single::lemma_whole_exact(SilenceThreshold::every()[j].whole_db());
    single::lemma_units_order(
        SilenceThreshold::every()[i].whole_db(),
        SilenceThreshold::every()[j].whole_db(),
    );
}

} // verus!
