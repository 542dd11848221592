//! The passes over one file.

use vocan::args::Arg;
use vocan::ffmpeg::{spawn_count, SpawnCounter};
use vocan::pipeline::{
    dsp_stages, stage_work, Action, Decoding, Event, FileJob, Stage, StageWork,
};
use vocan::processing::{chain_for, post_deesser_filters, trim_silence_chain};
use vocan::single::Single;
use vocan::types::{
    LoudnormStats, NormResult, OutputFormat, ProcessingOptions, ReductionProfile, SilencePad,
    SilenceThreshold,
};

fn s(x: f32) -> Single {
    Single::from_bits(x.to_bits())
}

fn texts(args: &[Arg]) -> Vec<String> {
    args.iter()
        .map(|a| match a {
            Arg::Text(t) => t.clone(),
            Arg::Input => "<in>".to_string(),
            Arg::Stored => "<stored>".to_string(),
            Arg::Output => "<out>".to_string(),
        })
        .collect()
}

fn stats() -> LoudnormStats {
    LoudnormStats {
        input_i: "-23.5".to_string(),
        input_tp: "-6.0".to_string(),
        input_lra: "5.0".to_string(),
        input_thresh: "-33.5".to_string(),
        target_offset: "0.5".to_string(),
    }
}

fn words(text: &str) -> Vec<String> {
    text.split(' ').map(|w| w.to_string()).collect()
}

/// A run over a file of `secs` seconds in which each pass works out.
fn happy(opts: ProcessingOptions, secs: f32) -> (Action, u64) {
    let mut job = FileJob::new(opts, "-16".to_string());
    let mut spawns = SpawnCounter::new();
    let mut event = Event::Begin;
    loop {
        let (action, _) = job.next(&mut spawns, event);
        event = match action {
            Action::Probe { .. } => Event::Probed { sample_rate: Some(44_100), duration: Some(s(secs)) },
            Action::Decode { .. } => Event::Decoded {
                started: true,
                samples: Decoding::Samples((secs * 44_100.0) as usize),
                success: Some(true),
                stderr: String::new(),
            },
            Action::Process { .. } => Event::Processed(Ok(((secs * 44_100.0) as usize, s(-6.0)))),
            Action::Store { .. } => Event::Stored(Ok(())),
            Action::MeasureStandard { .. } | Action::MeasurePadded { .. } => {
                Event::Measured(Ok((stats(), Some(s(-23.5)))))
            }
            Action::MeasurePeak { .. } => Event::PeakMeasured { peak: Some(s(-6.0)) },
            last => return (last, spawn_count(&spawns)),
        };
    }
}

fn spawns_for(opts: ProcessingOptions, secs: f32) -> u64 {
    let (last, n) = happy(opts, secs);
    assert!(matches!(last, Action::Encode { .. }), "processing should succeed");
    n
}

#[test]
fn plain_conversion_costs_three_ffmpeg_processes() {
    let opts = ProcessingOptions {
        target_lufs: Some(s(-16.0)),
        output_format: OutputFormat::Pcm24Wav,
        ..Default::default()
    };
    assert_eq!(spawns_for(opts, 5.0), 3);
}

#[test]
fn automixer_costs_four_ffmpeg_processes() {
    let opts = ProcessingOptions {
        target_lufs: Some(s(-16.0)),
        automixer: true,
        automixer_spectral_gate: true,
        output_format: OutputFormat::Pcm24Wav,
        ..Default::default()
    };
    assert_eq!(spawns_for(opts, 5.0), 4);
}

#[test]
fn skipping_normalization_removes_the_measurement_pass_only() {
    let plain = ProcessingOptions {
        target_lufs: None,
        output_format: OutputFormat::Pcm24Wav,
        ..Default::default()
    };
    assert_eq!(spawns_for(plain, 5.0), 1, "encode only");
    let automixer = ProcessingOptions {
        target_lufs: None,
        automixer: true,
        automixer_spectral_gate: true,
        output_format: OutputFormat::Pcm24Wav,
        ..Default::default()
    };
    assert_eq!(spawns_for(automixer, 5.0), 3);
}

#[test]
fn trimming_silence_costs_no_extra_process_in_either_pipeline() {
    let plain = ProcessingOptions {
        target_lufs: Some(s(-16.0)),
        trim_silence: true,
        output_format: OutputFormat::Pcm24Wav,
        ..Default::default()
    };
    assert_eq!(spawns_for(plain, 5.0), 3, "plain conversion with trim");
    let automixer = ProcessingOptions {
        target_lufs: Some(s(-16.0)),
        automixer: true,
        automixer_spectral_gate: true,
        trim_silence: true,
        output_format: OutputFormat::Pcm24Wav,
        ..Default::default()
    };
    assert_eq!(spawns_for(automixer, 5.0), 4, "automixer with trim");
}

#[test]
fn trimming_silence_without_normalization_still_costs_one_process() {
    let opts = ProcessingOptions {
        target_lufs: None,
        trim_silence: true,
        output_format: OutputFormat::Pcm24Wav,
        ..Default::default()
    };
    assert_eq!(spawns_for(opts, 5.0), 1, "encode only");
}

#[test]
fn norm_result_matches_decision_table_at_boundary_durations() {
    let opts = ProcessingOptions { target_lufs: Some(s(-16.0)), ..Default::default() };
    for (secs, expected) in [
        (0.9, NormResult::Padded),
        (2.9, NormResult::Padded),
        (3.0, NormResult::Standard),
        (3.1, NormResult::Standard),
        (5.0, NormResult::Standard),
    ] {
        match happy(opts, secs).0 {
            Action::Encode { result, .. } => assert_eq!(result, expected, "{secs}"),
            _ => panic!("processing should succeed"),
        }
    }
}

#[test]
fn trim_silence_reports_a_fully_silent_file_instead_of_writing_an_empty_one() {
    let opts = ProcessingOptions {
        trim_silence: true,
        automixer: true,
        automixer_spectral_gate: true,
        ..Default::default()
    };
    let mut job = FileJob::new(opts, String::new());
    let mut spawns = SpawnCounter::new();
    job.next(&mut spawns, Event::Begin);
    job.next(&mut spawns, Event::Probed { sample_rate: Some(48_000), duration: Some(s(2.0)) });
    let decoded = Event::Decoded { started: true, samples: Decoding::Samples(96_000), success: Some(true), stderr: String::new() };
    job.next(&mut spawns, decoded);
    match job.next(&mut spawns, Event::Processed(Ok((96_000, s(f32::NEG_INFINITY))))).0 {
        Action::Fail { message } => {
            assert!(message.contains("Trim silence threshold"), "unhelpful: {message}");
            assert!(message.contains("digital silence"), "unhelpful: {message}");
        }
        _ => panic!("a file that trims down to nothing must be reported, not published"),
    }
}

#[test]
fn a_quiet_file_is_judged_with_room_for_what_follows() {
    let opts = ProcessingOptions { trim_silence: true, automixer: true, ..Default::default() };
    for (peak, fails) in [(-53.5f32, true), (-53.0, false), (-52.9, false)] {
        let mut job = FileJob::new(opts, String::new());
        let mut spawns = SpawnCounter::new();
        job.next(&mut spawns, Event::Begin);
        job.next(&mut spawns, Event::Probed { sample_rate: Some(48_000), duration: None });
        let decoded = Event::Decoded { started: true, samples: Decoding::Samples(9), success: Some(true), stderr: String::new() };
        job.next(&mut spawns, decoded);
        match job.next(&mut spawns, Event::Processed(Ok((9, s(peak))))).0 {
            Action::Fail { message } => {
                assert!(fails, "{peak}");
                assert!(message.contains("(-45 dB)") && message.contains("-53.5 dB"), "{message}");
            }
            Action::Store { sample_rate } => {
                assert!(!fails, "{peak}");
                assert_eq!(sample_rate, 48_000);
            }
            _ => panic!("unexpected action"),
        }
    }
}

#[test]
fn the_command_lines_of_a_plain_conversion() {
    let opts = ProcessingOptions {
        target_lufs: Some(s(-16.0)),
        output_format: OutputFormat::Mp3,
        trim_silence: true,
        ..Default::default()
    };
    let trim = trim_silence_chain(SilenceThreshold::Recommended, SilencePad::Tight);
    let mut job = FileJob::new(opts, "-16".to_string());
    let mut spawns = SpawnCounter::new();
    match job.next(&mut spawns, Event::Begin).0 {
        Action::Probe { cmd } => assert_eq!(texts(&cmd), words("-nostdin -hide_banner -i <in>")),
        _ => panic!("the file is probed first"),
    }
    match job.next(&mut spawns, Event::Probed { sample_rate: None, duration: Some(s(3.0)) }).0 {
        Action::MeasureStandard { cmd } => assert_eq!(
            texts(&cmd),
            words(&format!(
                "-nostdin -y -hide_banner -i <in> -vn -af {trim},loudnorm=I=-16:TP=-1.5:LRA=1.0:print_format=json -f null -"
            ))
        ),
        _ => panic!("a file of three seconds is measured as it is"),
    }
    let (action, log) = job.next(&mut spawns, Event::Measured(Err("no report".to_string())));
    assert_eq!(
        log.as_deref(),
        Some("Standard loudness measurement unavailable (no report); falling back to the next strategy.")
    );
    match action {
        Action::MeasurePadded { pad_secs } => {
            assert_eq!(pad_secs, s(5.0));
            assert_eq!(
                texts(&job.padded_measurement("5")),
                words(&format!(
                    "-nostdin -y -hide_banner -i <in> -vn -af {trim},apad=pad_dur=5,atrim=end=5,loudnorm=I=-16:TP=-1.5:LRA=1.0:print_format=json -f null -"
                ))
            );
        }
        _ => panic!("the padded measurement comes second"),
    }
    match job.next(&mut spawns, Event::Measured(Ok((stats(), Some(s(f32::NEG_INFINITY)))))) {
        (Action::MeasurePeak { cmd }, None) => assert_eq!(texts(&cmd)[7], format!("{trim},volumedetect")),
        _ => panic!("the peak comes last"),
    }
    match job.next(&mut spawns, Event::PeakMeasured { peak: Some(s(-6.0)) }).0 {
        Action::Encode { cmd, result } => {
            assert_eq!(result, NormResult::Peak { gain_db: s(3.0) });
            assert_eq!(
                texts(&cmd),
                words(&format!(
                    "-nostdin -y -hide_banner -i <in> -vn -af {trim},volume=3.0000dB -ar 44100 -c:a libmp3lame -b:a 128k <out>"
                ))
            );
        }
        _ => panic!("the file is encoded"),
    }
    assert_eq!(spawn_count(&spawns), 5);
}

#[test]
fn the_command_lines_of_the_automixer() {
    let opts = ProcessingOptions { automixer: true, automixer_nn_dereverb: true, ..Default::default() };
    let mut job = FileJob::new(opts, String::new());
    let mut spawns = SpawnCounter::new();
    job.next(&mut spawns, Event::Begin);
    match job.next(&mut spawns, Event::Probed { sample_rate: Some(22_050), duration: Some(s(10.0)) }).0 {
        Action::Decode { reserve, cmd } => {
            assert_eq!(reserve, 4_800_000);
            assert_eq!(
                texts(&cmd),
                words("-nostdin -y -hide_banner -i <in> -vn -af deesser=i=0.4:m=0.5:f=0.5:s=o -ac 1 -ar 48000 -f f32le pipe:1")
            );
        }
        _ => panic!("the file is decoded"),
    }
    let decoded = Event::Decoded { started: true, samples: Decoding::Samples(480_000), success: Some(true), stderr: String::new() };
    match job.next(&mut spawns, decoded).0 {
        Action::Process { stages } => {
            assert_eq!(stages, vec![Stage::Denoise, Stage::VoiceEq { strength: s(0.5) }])
        }
        _ => panic!("the samples are processed"),
    }
    match job.next(&mut spawns, Event::Processed(Ok((480_000, s(-80.0))))).0 {
        Action::Store { sample_rate } => assert_eq!(sample_rate, 48_000),
        _ => panic!("the samples are stored"),
    }
    match job.next(&mut spawns, Event::Stored(Ok(()))).0 {
        Action::Encode { cmd, result } => {
            assert_eq!(result, NormResult::Skipped);
            assert_eq!(
                texts(&cmd),
                words(&format!(
                    "-nostdin -y -hide_banner -i <stored> -vn -af {} -ar 22050 -c:a adpcm_ima_wav <out>",
                    post_deesser_filters()
                ))
            );
        }
        _ => panic!("the file is encoded"),
    }
}

#[test]
fn the_processed_samples_are_measured_and_encoded_behind_the_same_filters() {
    let opts = ProcessingOptions {
        automixer: true,
        target_lufs: Some(s(-16.0)),
        trim_silence: true,
        ..Default::default()
    };
    let chain = chain_for(&opts).expect("the automixer has filters");
    let mut job = FileJob::new(opts, "-16".to_string());
    let mut spawns = SpawnCounter::new();
    let mut commands: Vec<Vec<Arg>> = Vec::new();
    let mut event = Event::Begin;
    loop {
        event = match job.next(&mut spawns, event).0 {
            Action::Probe { .. } => Event::Probed { sample_rate: Some(44_100), duration: None },
            Action::Decode { cmd, .. } => {
                assert_eq!(texts(&cmd)[4], "<in>");
                Event::Decoded {
                    started: true,
                    samples: Decoding::Samples(441_000),
                    success: Some(true),
                    stderr: String::new(),
                }
            }
            Action::Process { .. } => Event::Processed(Ok((441_000, s(-6.0)))),
            Action::Store { .. } => Event::Stored(Ok(())),
            Action::MeasureStandard { cmd } => {
                commands.push(cmd);
                Event::Measured(Err("no".to_string()))
            }
            Action::MeasurePadded { .. } => {
                commands.push(job.padded_measurement("11"));
                Event::Measured(Err("no".to_string()))
            }
            Action::MeasurePeak { cmd } => {
                commands.push(cmd);
                Event::PeakMeasured { peak: Some(s(-6.0)) }
            }
            Action::Encode { cmd, .. } => {
                commands.push(cmd);
                break;
            }
            Action::Fail { message } => panic!("{message}"),
        };
    }
    assert_eq!(commands.len(), 4);
    for cmd in &commands {
        let words = texts(cmd);
        assert_eq!((words[3].as_str(), words[4].as_str(), words[6].as_str()), ("-i", "<stored>", "-af"));
        assert!(words[7].starts_with(&format!("{chain},")), "{}", words[7]);
        assert!(!words.contains(&"<in>".to_string()));
    }
}

#[test]
fn the_expander_is_passed_over_without_a_noise_floor() {
    let stage = Stage::Expand { safety_pct: s(20.0), reduction_profile: ReductionProfile::Hard };
    assert!(matches!(stage_work(stage, None), StageWork::PassOver));
    match stage_work(stage, Some(s(-61.5))) {
        StageWork::Expand { params, noise_floor_db } => {
            assert_eq!((noise_floor_db, params.safety_pct), (s(-61.5), s(20.0)));
            assert_eq!(params.reduction_profile, ReductionProfile::Hard);
            assert_eq!((params.knee_db, params.hold_ms), (s(3.0), s(60.0)));
        }
        _ => panic!("the expander runs"),
    }
    assert!(matches!(stage_work(Stage::SpectralGate, None), StageWork::SpectralGate(_)));
}

#[test]
fn each_way_in_which_decoding_can_fail_is_told_apart() {
    let cases = [
        (false, Decoding::Unreadable, None, "FFmpeg spawn failed (de-esser pass)"),
        (true, Decoding::Unreadable, Some(true), "reading FFmpeg de-esser output"),
        (
            true,
            Decoding::OutOfMemory("ran out of memory".to_string()),
            Some(true),
            "reading FFmpeg de-esser output: ran out of memory",
        ),
        (true, Decoding::Samples(5), None, "FFmpeg de-esser wait failed"),
        (true, Decoding::Samples(5), Some(false), "FFmpeg de-esser pass failed: oops"),
        (true, Decoding::Samples(0), Some(true), "the file decoded to no audio at all"),
    ];
    for (started, samples, success, expected) in cases {
        let opts = ProcessingOptions { automixer: true, ..Default::default() };
        let mut job = FileJob::new(opts, String::new());
        let mut spawns = SpawnCounter::new();
        job.next(&mut spawns, Event::Begin);
        job.next(&mut spawns, Event::Probed { sample_rate: None, duration: None });
        match job.next(&mut spawns, Event::Decoded { started, samples, success, stderr: "oops".to_string() }).0 {
            Action::Fail { message } => assert_eq!(message, expected),
            _ => panic!("must fail: {expected}"),
        }
    }
}

#[test]
fn the_stages_come_in_their_order() {
    let opts = ProcessingOptions {
        automixer: true,
        automixer_expander: true,
        automixer_dfn3_dereverb: true,
        automixer_dfn3_postfilter: true,
        automixer_spectral_gate: true,
        automixer_nn_dereverb: true,
        ..Default::default()
    };
    assert_eq!(
        dsp_stages(&opts),
        vec![
            Stage::EstimateNoiseFloor,
            Stage::Dereverb { mix: s(0.8), attenuation_limit: s(30.0), post_filter: true },
            Stage::Expand { safety_pct: s(50.0), reduction_profile: ReductionProfile::Recommended },
            Stage::SpectralGate,
            Stage::VoiceEq { strength: s(0.5) },
        ]
    );
}
