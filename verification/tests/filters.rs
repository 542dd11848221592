//! Filter chains, the choice of a normalization, and the stream of samples.

use vocan::args::{empty, Arg};
use vocan::processing::{
    add_format_args, apply_norm_decision, chain_for, commit_failure, decide_normalization,
    deesser_only_filter, encode_verdict, post_deesser_filters, read_f32le_stream,
    read_f32le_stream_with, trim_chain_for, trim_head_filter, trim_silence_chain, EncodeVerdict,
    NormDecision, Room, StreamDecoder, StreamError,
};
use vocan::single::Single;
use vocan::types::{
    LoudnormStats, NormResult, OutputFormat, ProcessingOptions, SilencePad, SilenceThreshold,
};

fn s(x: f32) -> Single {
    Single::from_bits(x.to_bits())
}

fn texts(args: &[Arg]) -> Vec<String> {
    args.iter()
        .map(|a| match a {
            Arg::Text(t) => t.clone(),
            Arg::Input => "<in>".to_string(),
            Arg::Stored => "<stored>".to_string(),
            Arg::Output => "<out>".to_string(),
        })
        .collect()
}

fn stats() -> LoudnormStats {
    LoudnormStats {
        input_i: "-23.5".to_string(),
        input_tp: "-6.0".to_string(),
        input_lra: "5.0".to_string(),
        input_thresh: "-33.5".to_string(),
        target_offset: "0.5".to_string(),
    }
}

// ---------------------------------------------------------------------------
// Which normalization
// ---------------------------------------------------------------------------

#[test]
fn short_file_with_valid_padded_stats_uses_padded_at_0_9s() {
    let decision = decide_normalization(s(0.9), None, Some(&stats()), None, s(-3.0));
    assert_eq!(decision, NormDecision::Padded(stats()));
}

#[test]
fn short_file_with_valid_padded_stats_uses_padded_at_1_0s() {
    let decision = decide_normalization(s(1.0), None, Some(&stats()), None, s(-3.0));
    assert_eq!(decision, NormDecision::Padded(stats()));
}

#[test]
fn short_file_with_valid_padded_stats_uses_padded_at_2_9s() {
    let decision = decide_normalization(s(2.9), None, Some(&stats()), None, s(-3.0));
    assert_eq!(decision, NormDecision::Padded(stats()));
}

#[test]
fn file_at_3_0s_with_valid_standard_stats_uses_standard() {
    let decision = decide_normalization(s(3.0), Some(&stats()), None, None, s(-3.0));
    assert_eq!(decision, NormDecision::Standard(stats()));
}

#[test]
fn file_at_3_1s_with_valid_standard_stats_uses_standard() {
    let decision = decide_normalization(s(3.1), Some(&stats()), None, None, s(-3.0));
    assert_eq!(decision, NormDecision::Standard(stats()));
}

#[test]
fn file_at_3_1s_falls_back_to_padded_when_standard_measurement_failed() {
    let decision = decide_normalization(s(3.1), None, Some(&stats()), None, s(-3.0));
    assert_eq!(decision, NormDecision::Padded(stats()));
}

#[test]
fn falls_back_to_peak_when_both_standard_and_padded_fail() {
    let decision = decide_normalization(s(5.0), None, None, Some(s(-6.0)), s(-3.0));
    assert_eq!(decision, NormDecision::Peak { gain_db: s(3.0) });
}

#[test]
fn peak_gain_exceeding_40db_cap_is_skipped() {
    let decision = decide_normalization(s(5.0), None, None, Some(s(-50.0)), s(-3.0));
    assert_eq!(decision, NormDecision::Skipped);
}

#[test]
fn missing_peak_measurement_is_skipped() {
    let decision = decide_normalization(s(5.0), None, None, None, s(-3.0));
    assert_eq!(decision, NormDecision::Skipped);
}

#[test]
fn extremely_short_file_still_prefers_padded_over_peak_when_padded_succeeds() {
    let decision = decide_normalization(s(0.1), None, Some(&stats()), Some(s(-1.0)), s(-3.0));
    assert_eq!(decision, NormDecision::Padded(stats()));
}

#[test]
fn a_gain_at_the_cap_is_applied_and_a_peak_that_is_no_number_is_not() {
    let d = decide_normalization(s(5.0), None, None, Some(s(-43.0)), s(-3.0));
    assert_eq!(d, NormDecision::Peak { gain_db: s(40.0) });
    for peak in [f32::NEG_INFINITY, f32::INFINITY, f32::NAN] {
        assert_eq!(decide_normalization(s(5.0), None, None, Some(s(peak)), s(-3.0)), NormDecision::Skipped);
    }
    let short = decide_normalization(s(2.9), Some(&stats()), None, None, s(-3.0));
    assert_eq!(short, NormDecision::Skipped, "a standard measurement of a short file is not used");
}

// ---------------------------------------------------------------------------
// What it adds to the command line
// ---------------------------------------------------------------------------

#[test]
fn apply_peak_decision_adds_volume_filter_with_prefix() {
    let mut cmd = empty();
    let result = apply_norm_decision(
        &mut cmd,
        &NormDecision::Peak { gain_db: s(2.5) },
        "-16",
        44100,
        Some("highpass=f=70"),
    );
    assert_eq!(result, NormResult::Peak { gain_db: s(2.5) });
    assert_eq!(
        texts(&cmd),
        vec!["-af", "highpass=f=70,volume=2.5000dB", "-ar", "44100"]
    );
}

#[test]
fn apply_peak_decision_adds_volume_filter_without_prefix() {
    let mut cmd = empty();
    apply_norm_decision(&mut cmd, &NormDecision::Peak { gain_db: s(-1.0) }, "-16", 44100, None);
    assert_eq!(texts(&cmd), vec!["-af", "volume=-1.0000dB", "-ar", "44100"]);
}

#[test]
fn apply_peak_decision_restores_source_sample_rate_even_when_it_differs_from_44100() {
    let mut cmd = empty();
    apply_norm_decision(&mut cmd, &NormDecision::Peak { gain_db: s(1.0) }, "-16", 22050, None);
    assert_eq!(texts(&cmd), vec!["-af", "volume=1.0000dB", "-ar", "22050"]);
}

#[test]
fn apply_skipped_decision_keeps_prefix_filters_only() {
    let mut cmd = empty();
    let result = apply_norm_decision(&mut cmd, &NormDecision::Skipped, "-16", 44100, Some("highpass=f=70"));
    assert_eq!(result, NormResult::Skipped);
    assert_eq!(texts(&cmd), vec!["-af", "highpass=f=70", "-ar", "44100"]);
}

#[test]
fn apply_skipped_decision_without_prefix_still_restores_sample_rate() {
    let mut cmd = empty();
    apply_norm_decision(&mut cmd, &NormDecision::Skipped, "-16", 48000, None);
    assert_eq!(texts(&cmd), vec!["-ar", "48000"]);
}

#[test]
fn both_loudness_decisions_hand_the_measurement_back() {
    let expected = "loudnorm=I=-16:TP=-1.5:LRA=1.0:measured_I=-23.5:measured_LRA=5.0:measured_TP=-6.0:\
                    measured_thresh=-33.5:offset=0.5:linear=true";
    let mut cmd = empty();
    let r = apply_norm_decision(&mut cmd, &NormDecision::Standard(stats()), "-16", 44100, None);
    assert_eq!(r, NormResult::Standard);
    assert_eq!(texts(&cmd), vec!["-af", expected, "-ar", "44100"]);
    let mut padded = empty();
    let r = apply_norm_decision(&mut padded, &NormDecision::Padded(stats()), "-16", 44100, None);
    assert_eq!(r, NormResult::Padded);
    assert_eq!(texts(&padded), texts(&cmd));
}

#[test]
fn formats_add_their_codec_and_bitrate() {
    let cases: &[(OutputFormat, u32, &[&str])] = &[
        (OutputFormat::AdpcmWav, 128, &["-c:a", "adpcm_ima_wav"]),
        (OutputFormat::Flac, 32, &["-c:a", "flac"]),
        (OutputFormat::Mp3, 32, &["-c:a", "libmp3lame", "-b:a", "32k"]),
        (OutputFormat::Ogg, 36, &["-c:a", "libvorbis", "-q:a", "-1"]),
        (OutputFormat::Ogg, 37, &["-c:a", "libvorbis", "-q:a", "0"]),
        (OutputFormat::Ogg, 48, &["-c:a", "libvorbis", "-q:a", "0"]),
        (OutputFormat::Ogg, 49, &["-c:a", "libvorbis", "-b:a", "49k"]),
    ];
    for (format, kbps, expected) in cases {
        let mut cmd = empty();
        add_format_args(&mut cmd, *format, *kbps);
        assert_eq!(texts(&cmd), *expected);
    }
}

#[test]
fn an_encoding_is_published_only_if_it_completed() {
    assert!(matches!(encode_verdict(Some(true), ""), EncodeVerdict::Commit));
    match encode_verdict(Some(false), "bad\n") {
        EncodeVerdict::Discard(m) => assert_eq!(m, "FFmpeg failed during conversion: bad"),
        EncodeVerdict::Commit => panic!("a failed encoding must be discarded"),
    }
    match encode_verdict(None, "") {
        EncodeVerdict::Discard(m) => assert_eq!(m, "Failed to run FFmpeg (Conversion)"),
        EncodeVerdict::Commit => panic!("nothing was encoded"),
    }
    assert_eq!(
        commit_failure("/o/a.vocan-partial.wav", "denied"),
        "encoded /o/a.vocan-partial.wav but could not move it into place: denied"
    );
}

// ---------------------------------------------------------------------------
// The silence trim
// ---------------------------------------------------------------------------

fn default_chain() -> String {
    trim_silence_chain(SilenceThreshold::Recommended, SilencePad::Tight)
}

#[test]
fn trim_chain_never_uses_stop_periods() {
    for &t in SilenceThreshold::all() {
        for &p in SilencePad::all() {
            let chain = trim_silence_chain(t, p);
            assert!(!chain.contains("stop_periods"), "{t:?}/{p:?}: {chain}");
        }
    }
}

#[test]
fn trim_chain_trims_both_ends_symmetrically() {
    let head = trim_head_filter(SilenceThreshold::Recommended, SilencePad::Tight);
    let chain = default_chain();
    assert_eq!(chain.matches(head.as_str()).count(), 2, "{chain}");
    assert_eq!(chain.matches("areverse").count(), 2, "{chain}");
    assert_eq!(chain, format!("{head},areverse,{head},areverse"));
}

#[test]
fn every_threshold_preset_reaches_the_filter() {
    let cases = [
        (SilenceThreshold::Safe, "start_threshold=-60dB"),
        (SilenceThreshold::Recommended, "start_threshold=-45dB"),
        (SilenceThreshold::Hard, "start_threshold=-32dB"),
        (SilenceThreshold::Max, "start_threshold=-21dB"),
    ];
    for (threshold, expected) in cases {
        let filter = trim_head_filter(threshold, SilencePad::Tight);
        assert!(filter.contains(expected), "{threshold:?}: {filter}");
    }
}

#[test]
fn every_pad_preset_lands_on_top_of_the_detection_window() {
    let cases = [
        (SilencePad::Tight, "start_silence=0.05"),
        (SilencePad::Short, "start_silence=0.30"),
        (SilencePad::Medium, "start_silence=0.55"),
        (SilencePad::Long, "start_silence=1.05"),
    ];
    for (pad, expected) in cases {
        let filter = trim_head_filter(SilenceThreshold::Recommended, pad);
        assert!(filter.contains(expected), "{pad:?}: {filter}");
    }
}

#[test]
fn trim_chain_is_a_single_ffmpeg_argument() {
    for &t in SilenceThreshold::all() {
        for &p in SilencePad::all() {
            let chain = trim_silence_chain(t, p);
            assert!(!chain.chars().any(char::is_whitespace), "{chain}");
        }
    }
}

#[test]
fn trim_chain_is_absent_entirely_when_the_option_is_off() {
    let opts = ProcessingOptions::default();
    assert!(!opts.trim_silence);
    assert_eq!(trim_chain_for(&opts), None);
}

#[test]
fn trim_chain_is_built_from_the_options_when_the_option_is_on() {
    let opts = ProcessingOptions {
        trim_silence: true,
        trim_silence_threshold: SilenceThreshold::Hard,
        trim_silence_pad: SilencePad::Medium,
        ..Default::default()
    };
    assert_eq!(
        trim_chain_for(&opts).as_deref(),
        Some(trim_silence_chain(SilenceThreshold::Hard, SilencePad::Medium).as_str())
    );
}

#[test]
fn the_automixer_chain_puts_the_trim_behind_the_whole_clean_up() {
    let opts = ProcessingOptions {
        trim_silence: true,
        automixer: true,
        ..Default::default()
    };
    let trim = trim_chain_for(&opts).unwrap();
    let chain = chain_for(&opts).unwrap();
    assert_eq!(chain, format!("{},{}", post_deesser_filters(), trim));

    let post_at = chain.find(&post_deesser_filters()).unwrap();
    let trim_at = chain.find(&trim).unwrap();
    assert!(post_at < trim_at, "the trim must come last: {chain}");
    assert!(chain.ends_with(&trim));
}

#[test]
fn trim_reaches_the_encode_in_front_of_the_normalization_filter() {
    let chain = default_chain();
    let mut cmd = empty();
    apply_norm_decision(&mut cmd, &NormDecision::Peak { gain_db: s(2.0) }, "-16", 44100, Some(&chain));
    assert_eq!(
        texts(&cmd),
        vec![
            "-af".to_string(),
            format!("{chain},volume=2.0000dB"),
            "-ar".to_string(),
            "44100".to_string(),
        ]
    );
}

#[test]
fn the_filters_in_full() {
    assert_eq!(deesser_only_filter(), "deesser=i=0.4:m=0.5:f=0.5:s=o");
    assert_eq!(
        post_deesser_filters(),
        "highpass=f=70:poles=2:width_type=q:width=1.0,highpass=f=70:poles=1,\
         equalizer=f=90:width_type=q:width=2.478:g=-2.0,equalizer=f=175:width_type=q:width=1.0:g=-2.22,\
         equalizer=f=360:width_type=q:width=1.0:g=-1.23,equalizer=f=1350:width_type=q:width=1.4:g=1.4,\
         equalizer=f=4246:width_type=q:width=2.0:g=-1.36,highshelf=f=8000:width_type=q:width=1.0:g=1.0,\
         acompressor=threshold=0.251:ratio=4:attack=5:release=80:makeup=4"
    );
    assert_eq!(
        trim_head_filter(SilenceThreshold::Max, SilencePad::Long),
        "silenceremove=start_periods=1:start_duration=0.05:start_threshold=-21dB:start_silence=1.05"
    );
    let plain = ProcessingOptions { trim_silence: true, ..Default::default() };
    assert_eq!(chain_for(&plain), Some(default_chain()));
    assert_eq!(chain_for(&ProcessingOptions::default()), None);
}

// ---------------------------------------------------------------------------
// The stream of samples
// ---------------------------------------------------------------------------

#[test]
fn samples_do_not_depend_on_how_the_stream_is_cut() {
    let values: Vec<f32> = (0..100).map(|i| i as f32 * 0.37 - 3.0).collect();
    let mut bytes: Vec<u8> = Vec::new();
    for v in &values {
        bytes.extend_from_slice(&v.to_le_bytes());
    }
    bytes.extend_from_slice(&[1, 2, 3]);
    let expected: Vec<Single> = values.iter().map(|&v| s(v)).collect();
    for size in [1usize, 2, 3, 4, 5, 7, 64, 1000] {
        let reads: Vec<Option<Vec<u8>>> = bytes.chunks(size).map(|c| Some(c.to_vec())).collect();
        assert_eq!(read_f32le_stream(&reads), Ok(expected.clone()), "reads of {size}");
        let rooms = vec![Room { first: true, rest: true }; reads.len()];
        assert_eq!(read_f32le_stream_with(&reads, &rooms), Ok(expected.clone()));
        let mut d = StreamDecoder::new();
        for c in bytes.chunks(size) {
            d.feed(c).unwrap();
        }
        assert_eq!(d.finish(), expected);
    }
    assert_eq!(read_f32le_stream(&Vec::new()), Ok(Vec::new()));
}

#[test]
fn samples_may_straddle_the_reads_of_a_stream() {
    let reads = vec![
        Some(vec![0u8, 0]),
        Some(vec![0x80u8, 0x3f, 0, 0]),
        Some(vec![0u8, 0x40, 7]),
    ];
    assert_eq!(read_f32le_stream(&reads), Ok(vec![s(1.0), s(2.0)]));
}

#[test]
fn a_stream_ends_with_an_empty_read_and_fails_with_a_failed_one() {
    let one = || Some(1.0f32.to_le_bytes().to_vec());
    assert_eq!(read_f32le_stream(&vec![one(), Some(Vec::new()), one()]), Ok(vec![s(1.0)]));
    assert_eq!(read_f32le_stream(&vec![one(), None]), Err(StreamError::Unreadable));
    assert_eq!(read_f32le_stream(&vec![Some(Vec::new()), None]), Ok(Vec::new()));
    let mut d = StreamDecoder::new();
    assert_eq!(d.on_read(Some(&[0, 0, 0x80, 0x3f, 9])), Ok(true));
    assert_eq!(d.on_read(Some(&[])), Ok(false));
    assert_eq!(d.on_read(None), Err(StreamError::Unreadable));
    assert_eq!(d.finish(), vec![s(1.0)]);
}

#[test]
fn room_is_asked_for_every_sample_that_a_chunk_completes() {
    for begun in 0..4usize {
        let mut d = StreamDecoder::new();
        d.feed(&vec![7u8; 8 + begun]).unwrap();
        for chunk in 0..40usize {
            assert_eq!(d.completed_by(chunk), (begun + chunk) / 4);
            assert_eq!(d.completes_a_begun_sample(chunk), begun > 0 && begun + chunk >= 4);
        }
    }
}

#[test]
fn a_stream_without_room_says_how_far_it_came() {
    let text = "ran out of memory decoding this file (0.00 GB of samples read so far). \
                Process it without Automixer, or split it into shorter takes.";
    let bytes: Vec<u8> = (0..11).collect();
    // Three bytes of a sample first: the next read completes it, and holds one more.
    let mut d = StreamDecoder::new();
    d.feed_with(&bytes[..3], Room { first: false, rest: false }).expect("no sample is complete");
    let full = Room { first: false, rest: true };
    assert_eq!(d.feed_with(&bytes[3..], full), Err(text.to_string()));
    assert!(d.samples.is_empty());
    let partly = Room { first: true, rest: false };
    assert_eq!(d.feed_with(&bytes[3..], partly), Err(text.to_string()));
    assert_eq!(d.samples.len(), 1, "the sample that there was room for is kept");
    let reads = vec![Some(bytes.clone())];
    assert_eq!(
        read_f32le_stream_with(&reads, &vec![Room { first: true, rest: false }]),
        Err(StreamError::OutOfMemory(text.to_string()))
    );
    assert_eq!(
        read_f32le_stream_with(&reads, &vec![Room { first: false, rest: true }]).map(|v| v.len()),
        Ok(2)
    );
}
