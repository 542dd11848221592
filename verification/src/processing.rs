//! What is done to one file: filter chains, loudness normalization, output arguments, and the
//! decoded sample stream.

use vstd::prelude::*;

use crate::args;
use crate::args::{Arg, ArgModel};
use crate::double;
use crate::ffmpeg;
use crate::fixed;
pub use crate::paths::{output_path_for, partial_path};
use crate::single;
use crate::single::Single;
use crate::text;
use crate::types::{
    LoudnormStats, NormResult, OutputFormat, ProcessingOptions, SilencePad, SilenceThreshold,
};

verus! {

// ---------------------------------------------------------------------------
// Automixer filter chains
// ---------------------------------------------------------------------------

/// The de-esser.
pub open spec fn deesser_text() -> Seq<char> {
    "deesser=i=0.4:m=0.5:f=0.5:s=o"@
}

/// The chain behind the de-esser: high-pass, equalizers, shelf, compressor.
pub open spec fn post_deesser_text() -> Seq<char> {
    "highpass=f=70:poles=2:width_type=q:width=1.0,highpass=f=70:poles=1"@ + ","@
        + "equalizer=f=90:width_type=q:width=2.478:g=-2.0"@ + ","@
        + "equalizer=f=175:width_type=q:width=1.0:g=-2.22"@ + ","@
        + "equalizer=f=360:width_type=q:width=1.0:g=-1.23"@ + ","@
        + "equalizer=f=1350:width_type=q:width=1.4:g=1.4"@ + ","@
        + "equalizer=f=4246:width_type=q:width=2.0:g=-1.36"@ + ","@
        + "highshelf=f=8000:width_type=q:width=1.0:g=1.0"@ + ","@
        + "acompressor=threshold=0.251:ratio=4:attack=5:release=80:makeup=4"@
}

/// The de-esser alone.
pub fn deesser_only_filter() -> (r: String)
    ensures
        r@ == deesser_text(),
{
    "deesser=i=0.4:m=0.5:f=0.5:s=o".to_owned()
}

/// The filters behind the de-esser.
pub fn post_deesser_filters() -> (r: String)
    ensures
        r@ == post_deesser_text(),
{
    let mut r: String =
        "highpass=f=70:poles=2:width_type=q:width=1.0,highpass=f=70:poles=1".to_owned();
    r.append(",");
    r.append("equalizer=f=90:width_type=q:width=2.478:g=-2.0");
    r.append(",");
    r.append("equalizer=f=175:width_type=q:width=1.0:g=-2.22");
    r.append(",");
    r.append("equalizer=f=360:width_type=q:width=1.0:g=-1.23");
    r.append(",");
    r.append("equalizer=f=1350:width_type=q:width=1.4:g=1.4");
    r.append(",");
    r.append("equalizer=f=4246:width_type=q:width=2.0:g=-1.36");
    r.append(",");
    r.append("highshelf=f=8000:width_type=q:width=1.0:g=1.0");
    r.append(",");
    r.append("acompressor=threshold=0.251:ratio=4:attack=5:release=80:makeup=4");
    r
}

// ---------------------------------------------------------------------------
// Silence trimming
// ---------------------------------------------------------------------------

/// The sound that has to arrive before a take counts as begun: 0.05 s.
pub open spec fn detection_window() -> Single {
    single::ratio(5, 100)
}

/// The filter that trims silence off the head of a stream.
///
/// It keeps the detection window, so that the window itself is not cut off the onset, and the
/// padding on top of it.
pub open spec fn trim_head_text(threshold: SilenceThreshold, pad: SilencePad) -> Seq<char> {
    "silenceremove=start_periods=1:start_duration="@ + fixed::fixed(detection_window(), 2)
        + ":start_threshold="@ + fixed::fixed(single::whole(threshold.whole_db()), 0)
        + "dB:start_silence="@ + fixed::fixed(
        single::sum(detection_window(), single::ratio(pad.quarters(), 4)),
        2,
    )
}

/// The chain that trims the silence in front of a take and behind it, and nothing in between: the
/// tail is the head of the reversed stream.
pub open spec fn trim_chain_text(threshold: SilenceThreshold, pad: SilencePad) -> Seq<char> {
    trim_head_text(threshold, pad) + ",areverse,"@ + trim_head_text(threshold, pad) + ",areverse"@
}

/// The filter that trims silence off the head of a stream.
pub fn trim_head_filter(threshold: SilenceThreshold, pad: SilencePad) -> (r: String)
    ensures
        r@ == trim_head_text(threshold, pad),
{
    let window: Single = Single::of_ratio(5, 100);
    let duration: String = fixed::fixed_text(window, 2);
    let level: String = fixed::fixed_text(threshold.db(), 0);
    let kept: String = fixed::fixed_text(window.plus(pad.secs()), 2);
    let mut r: String = "silenceremove=start_periods=1:start_duration=".to_owned();
    r.append(duration.as_str());
    r.append(":start_threshold=");
    r.append(level.as_str());
    r.append("dB:start_silence=");
    r.append(kept.as_str());
    r
}

/// The chain that trims the silence in front of a take and behind it.
pub fn trim_silence_chain(threshold: SilenceThreshold, pad: SilencePad) -> (r: String)
    ensures
        r@ == trim_chain_text(threshold, pad),
{
    let head: String = trim_head_filter(threshold, pad);
    let mut r: String = head.clone();
    r.append(",areverse,");
    r.append(head.as_str());
    r.append(",areverse");
    r
}

/// The trim chain for these options; nothing at all when the option is off.
pub open spec fn trim_text(opts: ProcessingOptions) -> Option<Seq<char>> {
    if opts.trim_silence {
        Some(trim_chain_text(opts.trim_silence_threshold, opts.trim_silence_pad))
    } else {
        None
    }
}

/// The text that an optional string holds.
pub open spec fn held(s: Option<String>) -> Option<Seq<char>> {
    match s {
        Some(t) => Some(t@),
        None => None,
    }
}

/// The trim chain for these options; nothing at all when the option is off.
pub fn trim_chain_for(opts: &ProcessingOptions) -> (r: Option<String>)
    ensures
        held(r) == trim_text(*opts),
{
    if opts.trim_silence {
        Some(trim_silence_chain(opts.trim_silence_threshold, opts.trim_silence_pad))
    } else {
        None
    }
}

/// The filters that every measurement and the encode of a file run behind: with the automixer the
/// whole clean-up chain and then the trim, without it the trim alone.
pub open spec fn chain_text(opts: ProcessingOptions) -> Option<Seq<char>> {
    if opts.automixer {
        match trim_text(opts) {
            Some(t) => Some(post_deesser_text() + ","@ + t),
            None => Some(post_deesser_text()),
        }
    } else {
        trim_text(opts)
    }
}

/// The filters that every measurement and the encode of a file run behind.
pub fn chain_for(opts: &ProcessingOptions) -> (r: Option<String>)
    ensures
        held(r) == chain_text(*opts),
{
    let trim: Option<String> = trim_chain_for(opts);
    if !opts.automixer {
        return trim;
    }
    let post: String = post_deesser_filters();
    match trim {
        Some(t) => Some(text::comma(post.as_str(), t.as_str())),
        None => Some(post),
    }
}

// ---------------------------------------------------------------------------
// Loudness normalization
// ---------------------------------------------------------------------------

/// Which normalization to use, with what it takes to apply it.
#[derive(Debug, PartialEq)]
pub enum NormDecision {
    /// Two-pass EBU R128.
    Standard(LoudnormStats),
    /// Two-pass EBU R128, measured on a padded copy.
    Padded(LoudnormStats),
    /// Peak normalization with this gain.
    Peak { gain_db: Single },
    /// No normalization.
    Skipped,
}

/// The decision from what was measured. Standard statistics count from 3 s on; then come padded
/// ones; then a finite peak, as long as the gain stays within 40 dB.
pub open spec fn decision(
    duration: Single,
    standard: Option<&LoudnormStats>,
    padded: Option<&LoudnormStats>,
    peak: Option<Single>,
    target_peak: Single,
) -> NormDecision {
    if single::at_most(single::whole(3), duration) && standard is Some {
        NormDecision::Standard(*standard->0)
    } else if padded is Some {
        NormDecision::Padded(*padded->0)
    } else if peak is Some && peak->0.finite() && single::at_most(
        single::difference(target_peak, peak->0),
        single::whole(40),
    ) {
        NormDecision::Peak { gain_db: single::difference(target_peak, peak->0) }
    } else {
        NormDecision::Skipped
    }
}

/// Decides from what was measured which normalization applies.
pub fn decide_normalization(
    duration: Single,
    standard_stats: Option<&LoudnormStats>,
    padded_stats: Option<&LoudnormStats>,
    peak_dbfs: Option<Single>,
    target_peak_dbfs: Single,
) -> (r: NormDecision)
    ensures
        r == decision(duration, standard_stats, padded_stats, peak_dbfs, target_peak_dbfs),
{
    if Single::from_i32(3).le(duration) {
        if let Some(stats) = standard_stats {
            return NormDecision::Standard(stats.clone());
        }
    }
    if let Some(stats) = padded_stats {
        return NormDecision::Padded(stats.clone());
    }
    match peak_dbfs {
        Some(peak) => {
            if peak.is_finite() {
                let gain_db: Single = target_peak_dbfs.minus(peak);
                if gain_db.le(Single::from_i32(40)) {
                    return NormDecision::Peak { gain_db };
                }
            }
            NormDecision::Skipped
        },
        None => NormDecision::Skipped,
    }
}

/// The arguments that apply a decision.
pub open spec fn norm_args(
    d: NormDecision,
    lufs: Seq<char>,
    source_sr: u32,
    prefix: Option<Seq<char>>,
) -> Seq<ArgModel> {
    match d {
        NormDecision::Standard(stats) => ffmpeg::filter_and_rate(
            ffmpeg::behind(prefix, ffmpeg::loudnorm_apply(lufs, stats)),
            source_sr,
        ),
        NormDecision::Padded(stats) => ffmpeg::filter_and_rate(
            ffmpeg::behind(prefix, ffmpeg::loudnorm_apply(lufs, stats)),
            source_sr,
        ),
        NormDecision::Peak { gain_db } => ffmpeg::filter_and_rate(
            ffmpeg::behind(prefix, "volume="@ + fixed::fixed(gain_db, 4) + "dB"@),
            source_sr,
        ),
        NormDecision::Skipped => (match prefix {
            Some(p) => seq![args::word("-af"@), args::word(p)],
            None => Seq::empty(),
        }) + seq![args::word("-ar"@), args::word(text::decimal(source_sr as nat))],
    }
}

/// What a decision is logged as.
pub open spec fn norm_result(d: NormDecision) -> NormResult {
    match d {
        NormDecision::Standard(_) => NormResult::Standard,
        NormDecision::Padded(_) => NormResult::Padded,
        NormDecision::Peak { gain_db } => NormResult::Peak { gain_db },
        NormDecision::Skipped => NormResult::Skipped,
    }
}

/// Appends the arguments that apply a decision. Every decision restores the sample rate.
pub fn apply_norm_decision(
    cmd: &mut Vec<Arg>,
    d: &NormDecision,
    lufs: &str,
    source_sr: u32,
    prefix: Option<&str>,
) -> (r: NormResult)
    ensures
        r == norm_result(*d),
        args::model(final(cmd)@) == args::model(old(cmd)@) + norm_args(
            *d,
            lufs@,
            source_sr,
            ffmpeg::opt_text(prefix),
        ),
{
    match d {
        NormDecision::Standard(stats) => {
            ffmpeg::apply_loudnorm_pass2(cmd, lufs, stats, source_sr, prefix);
            NormResult::Standard
        },
        NormDecision::Padded(stats) => {
            ffmpeg::apply_loudnorm_pass2(cmd, lufs, stats, source_sr, prefix);
            NormResult::Padded
        },
        NormDecision::Peak { gain_db } => {
            let gain: String = fixed::fixed_text(*gain_db, 4);
            let mut v: String = "volume=".to_owned();
            v.append(gain.as_str());
            v.append("dB");
            let filter: String = ffmpeg::prefixed(prefix, v.as_str());
            ffmpeg::add_filter_and_rate(cmd, filter.as_str(), source_sr);
            NormResult::Peak { gain_db: *gain_db }
        },
        NormDecision::Skipped => {
            let ghost start: Seq<ArgModel> = args::model(cmd@);
            if let Some(p) = prefix {
                args::push_text(cmd, "-af");
                args::push_text(cmd, p);
            }
            let rate: String = text::decimal_text(source_sr as u128);
            args::push_text(cmd, "-ar");
            args::push_text(cmd, rate.as_str());
            assert(args::model(cmd@) == start + norm_args(
                *d,
                lufs@,
                source_sr,
                ffmpeg::opt_text(prefix),
            ));
            NormResult::Skipped
        },
    }
}

// ---------------------------------------------------------------------------
// Output format
// ---------------------------------------------------------------------------

/// The arguments that pick the codec, and the bitrate or quality of a lossy one.
pub open spec fn format_args(format: OutputFormat, bitrate_kbps: u32) -> Seq<ArgModel> {
    let codec = seq![args::word("-c:a"@), args::word(format.codec_text())];
    if !format.lossy() {
        codec
    } else if format == OutputFormat::Ogg && bitrate_kbps <= 36 {
        codec + seq![args::word("-q:a"@), args::word("-1"@)]
    } else if format == OutputFormat::Ogg && bitrate_kbps <= 48 {
        codec + seq![args::word("-q:a"@), args::word("0"@)]
    } else {
        codec + seq![
            args::word("-b:a"@),
            args::word(text::decimal(bitrate_kbps as nat) + "k"@),
        ]
    }
}

/// Appends the arguments for the output format.
pub fn add_format_args(cmd: &mut Vec<Arg>, format: OutputFormat, bitrate_kbps: u32)
    ensures
        args::model(final(cmd)@) == args::model(old(cmd)@) + format_args(format, bitrate_kbps),
{
    args::push_text(cmd, "-c:a");
    args::push_text(cmd, format.ffmpeg_codec());
    if format.needs_bitrate() {
        if format == OutputFormat::Ogg && bitrate_kbps <= 36 {
            args::push_text(cmd, "-q:a");
            args::push_text(cmd, "-1");
        } else if format == OutputFormat::Ogg && bitrate_kbps <= 48 {
            args::push_text(cmd, "-q:a");
            args::push_text(cmd, "0");
        } else {
            let mut rate: String = text::decimal_text(bitrate_kbps as u128);
            rate.append("k");
            args::push_text(cmd, "-b:a");
            args::push_text(cmd, rate.as_str());
        }
    }
    assert(args::model(cmd@) == args::model(old(cmd)@) + format_args(format, bitrate_kbps));
}

// ---------------------------------------------------------------------------
// Publishing the result
// ---------------------------------------------------------------------------

/// What becomes of the scratch file once the encoder has run.
pub enum EncodeVerdict {
    /// Move it into place.
    Commit,
    /// Remove it, and report this.
    Discard(String),
}

/// Judges the encoding pass: `None` where it could not be run at all, else whether it succeeded,
/// and what it said.
pub fn encode_verdict(success: Option<bool>, stderr: &str) -> (r: EncodeVerdict)
    ensures
        r is Commit <==> success == Some(true),
        success is None ==> r is Discard && r->Discard_0@ == "Failed to run FFmpeg (Conversion)"@,
        success == Some(false) ==> r is Discard && r->Discard_0@ == ffmpeg::failure_text(
            "conversion"@,
            stderr@,
        ),
{
    match success {
        None => EncodeVerdict::Discard("Failed to run FFmpeg (Conversion)".to_owned()),
        Some(ok) => if ok {
            EncodeVerdict::Commit
        } else {
            EncodeVerdict::Discard(ffmpeg::ffmpeg_failed("conversion", stderr))
        },
    }
}

/// What is said when the encoded file could not be moved into place.
pub fn commit_failure(partial: &str, reason: &str) -> (r: String)
    ensures
        r@ == "encoded "@ + partial@ + " but could not move it into place: "@ + reason@,
{
    let mut r: String = "encoded ".to_owned();
    r.append(partial);
    r.append(" but could not move it into place: ");
    r.append(reason);
    r
}

// ---------------------------------------------------------------------------
// Decoded samples
// ---------------------------------------------------------------------------

/// The number whose little-endian bytes are `b[i..i + 4]`.
pub open spec fn sample_at(b: Seq<u8>, i: int) -> Single {
    Single {
        bits: (b[i] as int + 0x100 * b[i + 1] + 0x1_0000 * b[i + 2] + 0x100_0000 * b[i + 3]) as u32,
    }
}

/// The samples in a stream of bytes, four bytes each; bytes left over at the end are dropped.
pub open spec fn samples_in(b: Seq<u8>) -> Seq<Single> {
    Seq::new((b.len() / 4) as nat, |k: int| sample_at(b, 4 * k))
}

/// What is said when memory runs out with `read` samples decoded.
pub open spec fn out_of_memory_text(read: nat) -> Seq<char> {
    "ran out of memory decoding this file ("@ + double::gigabytes(4 * read, 2)
        + " GB of samples read so far). Process it without Automixer, or split it into shorter takes."@
}

/// What the allocator said when room was asked for: for a sample that was begun before a chunk,
/// and for the samples that lie in the chunk as a whole.
#[derive(Clone, Copy, PartialEq, Eq, Debug, Structural)]
pub struct Room {
    pub first: bool,
    pub rest: bool,
}

/// Why a stream gave no samples.
#[derive(Debug, PartialEq)]
pub enum StreamError {
    /// It could not be read.
    Unreadable,
    /// Memory ran out; the text tells the user how far reading came and what to do.
    OutOfMemory(String),
}

/// A chunk of this length completes a sample that was begun in the `fed` bytes before it.
pub open spec fn straddles(fed: nat, chunk: nat) -> bool {
    fed % 4 > 0 && fed % 4 + chunk >= 4
}

/// How many bytes at the start of a chunk belong to a sample that was begun before it.
pub open spec fn lead(fed: nat, chunk: nat) -> nat {
    if fed % 4 == 0 {
        0
    } else if straddles(fed, chunk) {
        (4 - fed % 4) as nat
    } else {
        chunk
    }
}

/// There was no room for a sample that the chunk completes.
pub open spec fn refused(fed: nat, chunk: nat, room: Room) -> bool {
    ||| straddles(fed, chunk) && !room.first
    ||| (chunk - lead(fed, chunk)) / 4 > 0 && !room.rest
}

/// How many bytes of a chunk are taken in.
pub open spec fn taken(fed: nat, chunk: nat, room: Room) -> nat {
    if straddles(fed, chunk) && !room.first {
        0
    } else if refused(fed, chunk, room) {
        lead(fed, chunk)
    } else {
        chunk
    }
}

/// The room that is asked for before a chunk is taken, in samples: for one where the chunk
/// completes a sample that was begun, then for all that it completes. Nothing grows without having
/// been asked for.
pub open spec fn requests(fed: nat, chunk: nat) -> Seq<nat> {
    (if straddles(fed, chunk) {
        seq![1nat]
    } else {
        Seq::empty()
    }).push((fed % 4 + chunk) / 4)
}

/// `after` and `r` are what feeding the chunk comes to with this room.
pub open spec fn fed_with(
    before: Seq<u8>,
    chunk: Seq<u8>,
    room: Room,
    after: Seq<u8>,
    r: Result<(), String>,
) -> bool {
    &&& after == before + chunk.take(taken(before.len(), chunk.len(), room) as int)
    &&& r is Err <==> refused(before.len(), chunk.len(), room)
    &&& r is Err ==> r->Err_0@ == out_of_memory_text(samples_in(after).len())
}

/// Reads samples off a stream that arrives in chunks of any length.
pub struct StreamDecoder {
    pub samples: Vec<Single>,
    /// The bytes of a sample that is not complete yet.
    pub rem: Vec<u8>,
    /// All bytes taken in so far.
    pub fed: Ghost<Seq<u8>>,
    /// For how many samples the allocator has been asked for room, request by request.
    pub asked: Ghost<Seq<nat>>,
}

impl StreamDecoder {
    /// What has been decoded is what has been taken in.
    pub open spec fn wf(self) -> bool {
        &&& self.samples@ == samples_in(self.fed@)
        &&& self.rem@ == self.fed@.skip((4 * (self.fed@.len() / 4)) as int)
    }

    /// A decoder that has been fed nothing.
    pub fn new() -> (d: StreamDecoder)
        ensures
            d.wf(),
            d.fed@ == Seq::<u8>::empty(),
            d.asked@ == Seq::<nat>::empty(),
    {
        let d: StreamDecoder = StreamDecoder {
            samples: Vec::new(),
            rem: Vec::new(),
            fed: Ghost(Seq::empty()),
            asked: Ghost(Seq::empty()),
        };
        assert(d.samples@ == samples_in(d.fed@));
        assert(d.rem@ == d.fed@.skip(0));
        d
    }

    /// A chunk of this length completes a sample that was begun before it.
    pub fn completes_a_begun_sample(&self, chunk: usize) -> (r: bool)
        requires
            self.wf(),
        ensures
            r == straddles(self.fed@.len(), chunk as nat),
    {
        let begun: usize = self.rem.len();
        begun > 0 && chunk >= 4 - begun
    }

    /// How many samples a chunk of this length completes: what room is asked for.
    pub fn completed_by(&self, chunk: usize) -> (n: usize)
        requires
            self.wf(),
        ensures
            n == (self.fed@.len() % 4 + chunk) / 4,
    {
        let begun: usize = self.rem.len();
        if chunk < 4 - begun {
            0
        } else {
            (chunk - (4 - begun)) / 4 + 1
        }
    }

    /// Asks the allocator for room for `extra` samples: whether there is any.
    fn ask(&mut self, extra: usize) -> (granted: bool)
        requires
            old(self).wf(),
        ensures
            final(self).wf(),
            final(self).fed@ == old(self).fed@,
            final(self).asked@ == old(self).asked@.push(extra as nat),
    {
        self.asked = Ghost(self.asked@.push(extra as nat));
        self.samples.try_reserve(extra).is_ok()
    }

    /// Asks the allocator for room for what a chunk of this length completes.
    fn reserve(&mut self, chunk: usize) -> (room: Room)
        requires
            old(self).wf(),
        ensures
            final(self).wf(),
            final(self).fed@ == old(self).fed@,
            final(self).asked@ == old(self).asked@ + requests(old(self).fed@.len(), chunk as nat),
    {
        let all: usize = self.completed_by(chunk);
        let first: bool = if self.completes_a_begun_sample(chunk) {
            self.ask(1)
        } else {
            true
        };
        let rest: bool = self.ask(all);
        assert(self.asked@ =~= old(self).asked@ + requests(old(self).fed@.len(), chunk as nat));
        Room { first, rest }
    }

    /// Takes the next chunk, once the allocator has said whether there is room. Where there is
    /// not, the decoder is left with the samples that there was room for.
    pub fn feed_with(&mut self, chunk: &[u8], room: Room) -> (r: Result<(), String>)
        requires
            old(self).wf(),
        ensures
            final(self).wf(),
            fed_with(old(self).fed@, chunk@, room, final(self).fed@, r),
            final(self).asked@ == old(self).asked@,
    {
        let begun: usize = self.rem.len();
        let straddling: bool = self.completes_a_begun_sample(chunk.len());
        if straddling && !room.first {
            assert(chunk@.take(0) == Seq::<u8>::empty());
            return Err(self.out_of_memory());
        }
        let head: usize = if begun == 0 {
            0
        } else if straddling {
            4 - begun
        } else {
            chunk.len()
        };
        self.take_all(chunk, 0, head);
        assert(chunk@.subrange(0, head as int) == chunk@.take(head as int));
        if (chunk.len() - head) / 4 > 0 && !room.rest {
            return Err(self.out_of_memory());
        }
        self.take_all(chunk, head, chunk.len());
        assert((old(self).fed@ + chunk@.take(head as int)) + chunk@.subrange(
            head as int,
            chunk@.len() as int,
        ) == old(self).fed@ + chunk@);
        assert(chunk@.take(chunk@.len() as int) == chunk@);
        Ok(())
    }

    /// Takes the next chunk, as far as there is room for its samples. Room is asked for
    /// [`StreamDecoder::completed_by`] samples; whether there is any is the allocator's to say.
    pub fn feed(&mut self, chunk: &[u8]) -> (r: Result<(), String>)
        requires
            old(self).wf(),
        ensures
            final(self).wf(),
            exists|room: Room| #[trigger]
                fed_with(old(self).fed@, chunk@, room, final(self).fed@, r),
            final(self).asked@ == old(self).asked@ + requests(old(self).fed@.len(), chunk@.len()),
            old(self).fed@.len() % 4 + chunk@.len() < 4 ==> r is Ok,
    {
        let room: Room = self.reserve(chunk.len());
        self.feed_with(chunk, room)
    }

    fn out_of_memory(&self) -> (m: String)
        ensures
            m@ == out_of_memory_text(self.samples@.len()),
    {
        let n: usize = self.samples.len();
        let mut m: String = "ran out of memory decoding this file (".to_owned();
        let gb: String = double::gigabytes_text(4 * n as u128, 2);
        m.append(gb.as_str());
        m.append(
            " GB of samples read so far). Process it without Automixer, or split it into shorter takes.",
        );
        m
    }

    /// Takes the bytes from `from` up to `to`.
    fn take_all(&mut self, chunk: &[u8], from: usize, to: usize)
        requires
            old(self).wf(),
            from <= to <= chunk@.len(),
        ensures
            final(self).wf(),
            final(self).fed@ == old(self).fed@ + chunk@.subrange(from as int, to as int),
            final(self).asked@ == old(self).asked@,
    {
        assert(chunk@.subrange(from as int, from as int) == Seq::<u8>::empty());
        assert(old(self).fed@ + Seq::<u8>::empty() == old(self).fed@);
        for i in from..to
            invariant
                from <= to <= chunk@.len(),
                self.wf(),
                self.asked@ == old(self).asked@,
                self.fed@ == old(self).fed@ + chunk@.subrange(from as int, i as int),
        {
            self.take(chunk[i]);
            assert(chunk@.subrange(from as int, i as int + 1) == chunk@.subrange(
                from as int,
                i as int,
            ).push(chunk@[i as int]));
            assert(self.fed@ == old(self).fed@ + chunk@.subrange(from as int, i as int + 1));
        }
    }

    /// Takes one byte.
    fn take(&mut self, b: u8)
        requires
            old(self).wf(),
        ensures
            final(self).wf(),
            final(self).fed@ == old(self).fed@.push(b),
            final(self).asked@ == old(self).asked@,
    {
        let ghost seen: Seq<u8> = self.fed@;
        let ghost now: Seq<u8> = seen.push(b);
        let ghost k: int = (seen.len() / 4) as int;
        self.rem.push(b);
        self.fed = Ghost(now);
        assert(self.rem@ == now.skip(4 * k));
        if self.rem.len() < 4 {
            assert(samples_in(now) == samples_in(seen)) by {
                assert(now.len() / 4 == seen.len() / 4);
            }
            return;
        }
        let bits: u32 = self.rem[0] as u32 + 0x100 * self.rem[1] as u32 + 0x1_0000 * self.rem[2]
            as u32 + 0x100_0000 * self.rem[3] as u32;
        let s: Single = Single::from_bits(bits);
        self.samples.push(s);
        self.rem.clear();
        proof {
            assert(now.len() == 4 * k + 4);
            assert(s == sample_at(now, 4 * k));
            assert(samples_in(now) == samples_in(seen).push(s));
            assert(self.rem@ == now.skip((4 * (now.len() / 4)) as int));
        }
    }

    /// Goes on after a read, `None` if it failed: whether there is more to read. A read of no
    /// bytes is the end of the stream.
    pub fn on_read(&mut self, read: Option<&[u8]>) -> (r: Result<bool, StreamError>)
        requires
            old(self).wf(),
        ensures
            final(self).wf(),
            exists|room: Room| #[trigger]
                read_with(old(self).fed@, bytes_of(read), room, final(self).fed@, r),
            final(self).asked@ == old(self).asked@ + (match read {
                Some(b) if b@.len() > 0 => requests(old(self).fed@.len(), b@.len()),
                _ => Seq::empty(),
            }),
    {
        match read {
            None => {
                proof {
                    let room: Room = Room { first: true, rest: true };
                    assert(read_with(
                        old(self).fed@,
                        None,
                        room,
                        self.fed@,
                        Err(StreamError::Unreadable),
                    ));
                }
                Err(StreamError::Unreadable)
            },
            Some(chunk) => {
                if chunk.len() == 0 {
                    proof {
                        let room: Room = Room { first: true, rest: true };
                        assert(read_with(
                            old(self).fed@,
                            Some(chunk@),
                            room,
                            self.fed@,
                            Ok(false),
                        ));
                    }
                    return Ok(false);
                }
                let fed: Result<(), String> = self.feed(chunk);
                let ghost room: Room = choose|room: Room| #[trigger]
                    fed_with(old(self).fed@, chunk@, room, self.fed@, fed);
                let r: Result<bool, StreamError> = match fed {
                    Ok(_) => Ok(true),
                    Err(m) => Err(StreamError::OutOfMemory(m)),
                };
                assert(read_with(old(self).fed@, Some(chunk@), room, self.fed@, r));
                r
            },
        }
    }

    /// Goes on after a read, once the allocator has said whether there is room.
    pub fn on_read_with(&mut self, read: Option<&[u8]>, room: Room) -> (r: Result<
        bool,
        StreamError,
    >)
        requires
            old(self).wf(),
        ensures
            final(self).wf(),
            read_with(old(self).fed@, bytes_of(read), room, final(self).fed@, r),
            final(self).asked@ == old(self).asked@,
    {
        match read {
            None => Err(StreamError::Unreadable),
            Some(chunk) => {
                if chunk.len() == 0 {
                    return Ok(false);
                }
                match self.feed_with(chunk, room) {
                    Ok(_) => Ok(true),
                    Err(m) => Err(StreamError::OutOfMemory(m)),
                }
            },
        }
    }

    /// The samples decoded; an incomplete one at the end is dropped.
    pub fn finish(self) -> (r: Vec<Single>)
        requires
            self.wf(),
        ensures
            r@ == samples_in(self.fed@),
    {
        self.samples
    }
}

/// The bytes of a read, `None` if it failed.
pub open spec fn bytes_of(read: Option<&[u8]>) -> Option<Seq<u8>> {
    match read {
        Some(b) => Some(b@),
        None => None,
    }
}

/// `after` and `r` are what a read comes to with this room.
pub open spec fn read_with(
    before: Seq<u8>,
    read: Option<Seq<u8>>,
    room: Room,
    after: Seq<u8>,
    r: Result<bool, StreamError>,
) -> bool {
    match read {
        None => after == before && r == Err::<bool, StreamError>(StreamError::Unreadable),
        Some(chunk) => if chunk.len() == 0 {
            after == before && r == Ok::<bool, StreamError>(false)
        } else {
            &&& after == before + chunk.take(taken(before.len(), chunk.len(), room) as int)
            &&& match r {
                Ok(more) => more && !refused(before.len(), chunk.len(), room),
                Err(StreamError::OutOfMemory(m)) => refused(before.len(), chunk.len(), room) && m@
                    == out_of_memory_text(samples_in(after).len()),
                Err(StreamError::Unreadable) => false,
            }
        },
    }
}

/// What comes of reading a stream.
pub enum StreamOutcome {
    Samples(Seq<Single>),
    Unreadable,
    /// Memory ran out with so many samples decoded.
    OutOfMemory(nat),
}

/// What comes of these reads, one after the other, with this room for each of them. A read that
/// failed is `None`; one of no bytes, or none left, is the end.
pub open spec fn outcome_from(
    fed: Seq<u8>,
    reads: Seq<Option<Vec<u8>>>,
    rooms: Seq<Room>,
) -> StreamOutcome
    decreases reads.len(),
{
    if reads.len() == 0 {
        StreamOutcome::Samples(samples_in(fed))
    } else {
        match reads[0] {
            None => StreamOutcome::Unreadable,
            Some(chunk) => if chunk@.len() == 0 {
                StreamOutcome::Samples(samples_in(fed))
            } else {
                let n = taken(fed.len(), chunk@.len(), rooms[0]);
                let now = fed + chunk@.take(n as int);
                if refused(fed.len(), chunk@.len(), rooms[0]) {
                    StreamOutcome::OutOfMemory(samples_in(now).len())
                } else {
                    outcome_from(now, reads.skip(1), rooms.skip(1))
                }
            },
        }
    }
}

/// `r` is this outcome.
pub open spec fn gives(r: Result<Vec<Single>, StreamError>, o: StreamOutcome) -> bool {
    match r {
        Ok(v) => o == StreamOutcome::Samples(v@),
        Err(StreamError::Unreadable) => o is Unreadable,
        Err(StreamError::OutOfMemory(m)) => o is OutOfMemory && m@ == out_of_memory_text(
            o->OutOfMemory_0,
        ),
    }
}

/// The bytes that the reads deliver before the end, or before one that fails.
pub open spec fn delivered(reads: Seq<Option<Vec<u8>>>) -> Seq<u8>
    decreases reads.len(),
{
    if reads.len() == 0 || reads[0] is None || reads[0]->0@.len() == 0 {
        Seq::empty()
    } else {
        reads[0]->0@ + delivered(reads.skip(1))
    }
}

/// No read fails before the end.
pub open spec fn ends_well(reads: Seq<Option<Vec<u8>>>) -> bool
    decreases reads.len(),
{
    reads.len() == 0 || (reads[0] is Some && (reads[0]->0@.len() == 0 || ends_well(reads.skip(1))))
}

fn borrowed_bytes(read: &Option<Vec<u8>>) -> (r: Option<&[u8]>)
    ensures
        bytes_of(r) == match *read {
            Some(v) => Some(v@),
            None => None,
        },
{
    match read {
        Some(v) => Some(v.as_slice()),
        None => None,
    }
}

/// Decodes a stream from its reads, with what the allocator said to each of them.
pub fn read_f32le_stream_with(reads: &Vec<Option<Vec<u8>>>, rooms: &Vec<Room>) -> (r: Result<
    Vec<Single>,
    StreamError,
>)
    requires
        reads@.len() <= rooms@.len(),
    ensures
        gives(r, outcome_from(Seq::empty(), reads@, rooms@)),
{
    let mut d: StreamDecoder = StreamDecoder::new();
    let mut i: usize = 0;
    assert(reads@.skip(0) == reads@);
    assert(rooms@.skip(0) == rooms@);
    while i < reads.len()
        invariant
            i <= reads@.len() <= rooms@.len(),
            d.wf(),
            outcome_from(Seq::empty(), reads@, rooms@) == outcome_from(
                d.fed@,
                reads@.skip(i as int),
                rooms@.skip(i as int),
            ),
        decreases reads@.len() - i,
    {
        assert(reads@.skip(i as int)[0] == reads@[i as int]);
        assert(rooms@.skip(i as int)[0] == rooms@[i as int]);
        match d.on_read_with(borrowed_bytes(&reads[i]), rooms[i]) {
            Err(e) => {
                return Err(e);
            },
            Ok(more) => {
                if !more {
                    return Ok(d.finish());
                }
            },
        }
        assert(reads@.skip(i as int).skip(1) == reads@.skip(i as int + 1));
        assert(rooms@.skip(i as int).skip(1) == rooms@.skip(i as int + 1));
        i = i + 1;
    }
    Ok(d.finish())
}

/// Decodes a stream from its reads. How it was cut makes no difference.
pub fn read_f32le_stream(reads: &Vec<Option<Vec<u8>>>) -> (r: Result<Vec<Single>, StreamError>)
    ensures
        exists|rooms: Seq<Room>|
            rooms.len() == reads@.len() && gives(
                r,
                #[trigger] outcome_from(Seq::empty(), reads@, rooms),
            ),
        r matches Ok(v) ==> ends_well(reads@) && v@ == samples_in(delivered(reads@)),
        r is Err && r->Err_0 is Unreadable ==> !ends_well(reads@),
        delivered(reads@).len() < 4 ==> (r is Ok <==> ends_well(reads@)),
{
    let mut d: StreamDecoder = StreamDecoder::new();
    let mut i: usize = 0;
    let ghost mut said: Seq<Room> = Seq::empty();
    assert(reads@.skip(0) == reads@);
    proof {
        assert forall|t: Seq<Room>|
            outcome_from(Seq::empty(), reads@, said + t) == #[trigger] outcome_from(
                d.fed@,
                reads@.skip(0),
                t,
            ) by {
            assert(said + t == t);
        }
    }
    while i < reads.len()
        invariant
            i <= reads@.len(),
            said.len() == i,
            d.wf(),
            forall|t: Seq<Room>|
                outcome_from(Seq::empty(), reads@, said + t) == #[trigger] outcome_from(
                    d.fed@,
                    reads@.skip(i as int),
                    t,
                ),
        decreases reads@.len() - i,
    {
        assert(reads@.skip(i as int)[0] == reads@[i as int]);
        let ghost before: Seq<u8> = d.fed@;
        let read: Option<&[u8]> = borrowed_bytes(&reads[i]);
        let step: Result<bool, StreamError> = d.on_read(read);
        let ghost room: Room = choose|room: Room| #[trigger]
            read_with(before, bytes_of(read), room, d.fed@, step);
        let ghost tail: Seq<Room> = Seq::new((reads@.len() - i) as nat, |k: int| room);
        let ghost rooms: Seq<Room> = said + tail;
        proof {
            assert(tail[0] == room);
            assert(outcome_from(Seq::empty(), reads@, rooms) == outcome_from(
                before,
                reads@.skip(i as int),
                tail,
            ));
            lemma_outcome(Seq::empty(), reads@, rooms);
            assert(Seq::<u8>::empty() + delivered(reads@) == delivered(reads@));
        }
        match step {
            Err(e) => {
                return Err(e);
            },
            Ok(more) => {
                if !more {
                    return Ok(d.finish());
                }
            },
        }
        proof {
            let next: Seq<Room> = said.push(room);
            assert(reads@.skip(i as int).skip(1) == reads@.skip(i as int + 1));
            assert forall|t: Seq<Room>|
                outcome_from(Seq::empty(), reads@, next + t) == #[trigger] outcome_from(
                    d.fed@,
                    reads@.skip(i as int + 1),
                    t,
                ) by {
                let u: Seq<Room> = seq![room] + t;
                assert(next + t == said + u);
                assert(u[0] == room);
                assert(u.skip(1) == t);
                assert(outcome_from(Seq::empty(), reads@, said + u) == outcome_from(
                    before,
                    reads@.skip(i as int),
                    u,
                ));
            }
            said = next;
        }
        i = i + 1;
    }
    proof {
        let none: Seq<Room> = Seq::empty();
        assert(said + none == said);
        assert(outcome_from(Seq::empty(), reads@, said + none) == outcome_from(
            d.fed@,
            reads@.skip(i as int),
            none,
        ));
        lemma_outcome(Seq::empty(), reads@, said);
        assert(Seq::<u8>::empty() + delivered(reads@) == delivered(reads@));
    }
    Ok(d.finish())
}

/// The allocator had room for everything.
pub open spec fn all_granted(rooms: Seq<Room>, n: nat) -> bool {
    forall|i: int| 0 <= i < n ==> (#[trigger] rooms[i]).first && rooms[i].rest
}

/// What an outcome says of the reads that it came from.
proof fn lemma_outcome(fed: Seq<u8>, reads: Seq<Option<Vec<u8>>>, rooms: Seq<Room>)
    requires
        rooms.len() == reads.len(),
    ensures
        match outcome_from(fed, reads, rooms) {
            StreamOutcome::Samples(s) => ends_well(reads) && s == samples_in(
                fed + delivered(reads),
            ),
            StreamOutcome::Unreadable => !ends_well(reads),
            StreamOutcome::OutOfMemory(n) => n < samples_in(fed + delivered(reads)).len()
                && !all_granted(rooms, reads.len()),
        },
        fed.len() % 4 + delivered(reads).len() < 4 ==> !(outcome_from(
            fed,
            reads,
            rooms,
        ) is OutOfMemory),
    decreases reads.len(),
{
    if reads.len() == 0 || reads[0] is None || reads[0]->0@.len() == 0 {
        assert(fed + Seq::<u8>::empty() == fed);
    } else {
        let chunk: Seq<u8> = reads[0]->0@;
        let rest: Seq<u8> = delivered(reads.skip(1));
        assert(delivered(reads) == chunk + rest);
        if refused(fed.len(), chunk.len(), rooms[0]) {
            let n: nat = taken(fed.len(), chunk.len(), rooms[0]);
            assert(chunk.take(n as int).len() == n);
        } else {
            assert(chunk.take(chunk.len() as int) == chunk);
            lemma_outcome(fed + chunk, reads.skip(1), rooms.skip(1));
            assert((fed + chunk) + rest == fed + delivered(reads));
            assert(forall|i: int|
                0 <= i < reads.len() - 1 ==> rooms.skip(1)[i] == #[trigger] rooms[i + 1]);
            if !all_granted(rooms.skip(1), (reads.len() - 1) as nat) {
                let k: int = choose|k: int|
                    0 <= k < reads.len() - 1 && !((#[trigger] rooms.skip(1)[k]).first
                        && rooms.skip(1)[k].rest);
                assert(rooms[k + 1] == rooms.skip(1)[k]);
            }
        }
    }
}

// ---------------------------------------------------------------------------
// Laws
// ---------------------------------------------------------------------------

/// Where memory suffices the result is every whole sample of the bytes delivered, or, where a
/// read fails, that the stream is unreadable.
pub proof fn a_stream_is_decoded_where_memory_suffices(
    reads: Seq<Option<Vec<u8>>>,
    rooms: Seq<Room>,
)
    requires
        rooms.len() == reads.len(),
        all_granted(rooms, reads.len()),
    ensures
        outcome_from(Seq::empty(), reads, rooms) == if ends_well(reads) {
            StreamOutcome::Samples(samples_in(delivered(reads)))
        } else {
            StreamOutcome::Unreadable
        },
{
    lemma_outcome(Seq::empty(), reads, rooms);
    assert(Seq::<u8>::empty() + delivered(reads) == delivered(reads));
}

/// How a stream is cut into reads makes no difference, as long as memory suffices.
pub proof fn cuts_make_no_difference(
    a: Seq<Option<Vec<u8>>>,
    rooms_a: Seq<Room>,
    b: Seq<Option<Vec<u8>>>,
    rooms_b: Seq<Room>,
)
    requires
        rooms_a.len() == a.len(),
        rooms_b.len() == b.len(),
        all_granted(rooms_a, a.len()),
        all_granted(rooms_b, b.len()),
        delivered(a) == delivered(b),
        ends_well(a) == ends_well(b),
    ensures
        outcome_from(Seq::empty(), a, rooms_a) == outcome_from(Seq::empty(), b, rooms_b),
{
    a_stream_is_decoded_where_memory_suffices(a, rooms_a);
    a_stream_is_decoded_where_memory_suffices(b, rooms_b);
}

/// More bytes never change the samples that were complete before them.
pub proof fn decoded_samples_stay(a: Seq<u8>, b: Seq<u8>)
    ensures
        samples_in(a).is_prefix_of(samples_in(a + b)),
{
    let all: Seq<Single> = samples_in(a + b);
    assert(samples_in(a) =~= all.subrange(0, samples_in(a).len() as int));
}

/// Every decision, whatever else it adds, ends by restoring the sample rate of the source.
pub proof fn every_decision_restores_the_sample_rate(
    d: NormDecision,
    lufs: Seq<char>,
    source_sr: u32,
    prefix: Option<Seq<char>>,
)
    ensures
        ({
            let a = norm_args(d, lufs, source_sr, prefix);
            &&& a.len() >= 2
            &&& a[a.len() - 2] == args::word("-ar"@)
            &&& a[a.len() - 1] == args::word(text::decimal(source_sr as nat))
        }),
{
}

/// Standard statistics from 3 s on come before padded ones, and padded ones before a peak.
pub proof fn precedence_of_measurements(
    duration: Single,
    standard: Option<&LoudnormStats>,
    padded: Option<&LoudnormStats>,
    peak: Option<Single>,
    target: Single,
)
    ensures
        decision(duration, standard, padded, peak, target) is Standard <==> (single::at_most(
            single::whole(3),
            duration,
        ) && standard is Some),
        decision(duration, standard, padded, peak, target) is Padded <==> (!(single::at_most(
            single::whole(3),
            duration,
        ) && standard is Some) && padded is Some),
{
}

/// A peak gain is never more than 40 dB.
pub proof fn peak_gain_is_capped(
    duration: Single,
    standard: Option<&LoudnormStats>,
    padded: Option<&LoudnormStats>,
    peak: Option<Single>,
    target: Single,
)
    ensures
        decision(duration, standard, padded, peak, target) matches NormDecision::Peak { gain_db }
            ==> single::at_most(gain_db, single::whole(40)) && peak is Some && peak->0.finite(),
{
}

/// With the trim switched off nothing of it is in the command line; with the automixer on it
/// stands at the very end of the clean-up chain.
pub proof fn the_trim_comes_last_or_not_at_all(opts: ProcessingOptions)
    ensures
        !opts.trim_silence ==> trim_text(opts) is None,
        !opts.trim_silence && !opts.automixer ==> chain_text(opts) is None,
        !opts.trim_silence && opts.automixer ==> chain_text(opts) == Some(post_deesser_text()),
        opts.trim_silence && opts.automixer ==> {
            let chain = chain_text(opts)->0;
            let trim = trim_text(opts)->0;
            &&& chain.skip(chain.len() - trim.len()) == trim
            &&& chain.take(post_deesser_text().len() as int) == post_deesser_text()
        },
{
    if opts.trim_silence && opts.automixer {
        let chain: Seq<char> = chain_text(opts)->0;
        let trim: Seq<char> = trim_text(opts)->0;
        assert(chain.skip(chain.len() - trim.len()) == trim);
        assert(chain.take(post_deesser_text().len() as int) == post_deesser_text());
    }
}

/// No character of `s` is white space.
pub open spec fn unspaced(s: Seq<char>) -> bool {
    forall|i: int| 0 <= i < s.len() ==> !text::is_space(#[trigger] s[i])
}

proof fn lemma_trim_head_unspaced(threshold: SilenceThreshold, pad: SilencePad)
    ensures
        unspaced(trim_head_text(threshold, pad)),
{
    let a: Seq<char> = "silenceremove=start_periods=1:start_duration="@;
    let b: Seq<char> = ":start_threshold="@;
    let c: Seq<char> = "dB:start_silence="@;
    reveal_strlit("silenceremove=start_periods=1:start_duration=");
    reveal_strlit(":start_threshold=");
    reveal_strlit("dB:start_silence=");
    assert(unspaced(a));
    assert(unspaced(b));
    assert(unspaced(c));
    fixed::lemma_fixed_is_numeric(detection_window(), 2);
    fixed::lemma_fixed_is_numeric(single::whole(threshold.whole_db()), 0);
    fixed::lemma_fixed_is_numeric(
        single::sum(detection_window(), single::ratio(pad.quarters(), 4)),
        2,
    );
}

/// The trim chain is one argument of a command line: it holds no white space.
pub proof fn the_trim_chain_is_a_single_argument(threshold: SilenceThreshold, pad: SilencePad)
    ensures
        unspaced(trim_chain_text(threshold, pad)),
{
    lemma_trim_head_unspaced(threshold, pad);
    reveal_strlit(",areverse,");
    reveal_strlit(",areverse");
    assert(unspaced(",areverse,"@));
    assert(unspaced(",areverse"@));
}

/// No `o` in `s` is followed by a `p`, not even by one that comes behind `s`.
pub open spec fn no_op(s: Seq<char>) -> bool {
    forall|i: int|
        0 <= i < s.len() && #[trigger] s[i] == 'o' ==> i + 1 < s.len() && s[i + 1] != 'p'
}

proof fn lemma_no_op_joins(a: Seq<char>, b: Seq<char>)
    requires
        no_op(a),
        no_op(b),
    ensures
        no_op(a + b),
{
    let s: Seq<char> = a + b;
    assert forall|i: int| 0 <= i < s.len() && #[trigger] s[i] == 'o' implies i + 1 < s.len()
        && s[i + 1] != 'p' by {
        if i < a.len() {
            assert(a[i] == 'o');
        } else {
            assert(b[i - a.len()] == 'o');
        }
    }
}

proof fn lemma_trim_head_no_op(threshold: SilenceThreshold, pad: SilencePad)
    ensures
        no_op(trim_head_text(threshold, pad)),
{
    let a: Seq<char> = "silenceremove=start_periods=1:start_duration="@;
    let b: Seq<char> = ":start_threshold="@;
    let c: Seq<char> = "dB:start_silence="@;
    reveal_strlit("silenceremove=start_periods=1:start_duration=");
    reveal_strlit(":start_threshold=");
    reveal_strlit("dB:start_silence=");
    assert(no_op(a));
    assert(no_op(b));
    assert(no_op(c));
    let d: Seq<char> = fixed::fixed(detection_window(), 2);
    let e: Seq<char> = fixed::fixed(single::whole(threshold.whole_db()), 0);
    let f: Seq<char> = fixed::fixed(
        single::sum(detection_window(), single::ratio(pad.quarters(), 4)),
        2,
    );
    fixed::lemma_fixed_is_numeric(detection_window(), 2);
    fixed::lemma_fixed_is_numeric(single::whole(threshold.whole_db()), 0);
    fixed::lemma_fixed_is_numeric(
        single::sum(detection_window(), single::ratio(pad.quarters(), 4)),
        2,
    );
    assert(no_op(d));
    assert(no_op(e));
    assert(no_op(f));
    lemma_no_op_joins(a, d);
    lemma_no_op_joins(a + d, b);
    lemma_no_op_joins(a + d + b, e);
    lemma_no_op_joins(a + d + b + e, c);
    lemma_no_op_joins(a + d + b + e + c, f);
}

/// The trim chain never asks for `stop_periods`, which would cut a take at its first pause.
pub proof fn the_trim_chain_never_uses_stop_periods(threshold: SilenceThreshold, pad: SilencePad)
    ensures
        !text::contains(trim_chain_text(threshold, pad), "stop_periods"@),
{
    let h: Seq<char> = trim_head_text(threshold, pad);
    let chain: Seq<char> = trim_chain_text(threshold, pad);
    lemma_trim_head_no_op(threshold, pad);
    reveal_strlit(",areverse,");
    reveal_strlit(",areverse");
    assert(no_op(",areverse,"@));
    assert(no_op(",areverse"@));
    lemma_no_op_joins(h, ",areverse,"@);
    lemma_no_op_joins(h + ",areverse,"@, h);
    lemma_no_op_joins(h + ",areverse,"@ + h, ",areverse"@);
    reveal_strlit("stop_periods");
    let needle: Seq<char> = "stop_periods"@;
    assert forall|at: int| !text::found_at(chain, needle, at) by {
        if text::found_at(chain, needle, at) {
            let w: Seq<char> = chain.subrange(at, at + needle.len());
            assert(w[2] == chain[at + 2] && w[3] == chain[at + 3]);
            assert(needle[2] == 'o' && needle[3] == 'p');
        }
    }
}

/// The threshold stands in the filter as a whole number of dB.
pub proof fn every_threshold_reaches_the_filter(threshold: SilenceThreshold, pad: SilencePad)
    ensures
        text::contains(
            trim_head_text(threshold, pad),
            ":start_threshold="@ + ("-"@ + text::decimal((-threshold.whole_db()) as nat))
                + "dB:start_silence="@,
        ),
{
    fixed::lemma_fixed_whole(threshold.whole_db());
    let head: Seq<char> = trim_head_text(threshold, pad);
    let before: Seq<char> = "silenceremove=start_periods=1:start_duration="@ + fixed::fixed(
        detection_window(),
        2,
    );
    let mid: Seq<char> = ":start_threshold="@ + ("-"@ + text::decimal(
        (-threshold.whole_db()) as nat,
    )) + "dB:start_silence="@;
    let at: int = before.len() as int;
    assert(head.subrange(at, at + mid.len()) == mid);
    assert(text::found_at(head, mid, at));
}

} // verus!
