//! What FFmpeg prints, and how it is called.

use vocan::args::{empty, Arg, Source};
use vocan::ffmpeg::{
    add_measurement, add_overview_measurement, add_padded_measurement, add_peak_measurement,
    add_probe, add_stats_measurement, apply_loudnorm_pass2, choose_ffmpeg, duration_secs,
    ffmpeg_cmd, ffmpeg_failed, get_duration, get_sample_rate, loudnorm_report, measured_peak,
    measured_report, parse_duration, parse_max_volume, parse_sample_rate, prefixed, probe_cmd, probe_input,
    reset_spawn_count, spawn_count, usable_loudness, usable_stats, FfmpegPlace, ReportError,
    SpawnCounter,
};
use vocan::single::Single;
use vocan::types::LoudnormStats;

const SAMPLE_STDERR: &str = r#"
Input #0, wav, from 'input.wav':
  Duration: 00:00:05.00, bitrate: 1411 kb/s
Stream #0:0: Audio: pcm_s16le, 44100 Hz, mono, s16, 705 kb/s
[Parsed_loudnorm_0 @ 0x7f8b3b008dc0]
{
	"input_i" : "-23.50",
	"input_tp" : "-6.00",
	"input_lra" : "5.00",
	"input_thresh" : "-33.50",
	"output_i" : "-23.00",
	"output_tp" : "-2.00",
	"output_lra" : "5.00",
	"output_thresh" : "-33.00",
	"normalization_type" : "dynamic",
	"target_offset" : "0.50"
}
size=N/A time=00:00:05.00 bitrate=N/A speed=  42x
"#;

fn s(x: f32) -> Single {
    Single::from_bits(x.to_bits())
}

fn texts(args: &[Arg]) -> Vec<String> {
    args.iter()
        .map(|a| match a {
            Arg::Text(t) => t.clone(),
            Arg::Input => "<in>".to_string(),
            Arg::Stored => "<stored>".to_string(),
            Arg::Output => "<out>".to_string(),
        })
        .collect()
}

fn field(v: &serde_json::Value, name: &str) -> Result<String, String> {
    match v.get(name) {
        Some(serde_json::Value::String(t)) => Ok(t.clone()),
        _ => Err(format!("missing field {name}")),
    }
}

/// The statistics in FFmpeg's diagnostics.
fn extract_loudnorm_stats(stderr: &str) -> Result<LoudnormStats, String> {
    let block = loudnorm_report(stderr).map_err(|e| e.message().to_string())?;
    let v: serde_json::Value = serde_json::from_str(&block).map_err(|e| format!("{e}"))?;
    Ok(LoudnormStats {
        input_i: field(&v, "input_i")?,
        input_tp: field(&v, "input_tp")?,
        input_lra: field(&v, "input_lra")?,
        input_thresh: field(&v, "input_thresh")?,
        target_offset: field(&v, "target_offset")?,
    })
}

// ---------------------------------------------------------------------------
// The report of loudnorm
// ---------------------------------------------------------------------------

#[test]
fn extract_loudnorm_stats_parses_trailing_json() {
    let stats = extract_loudnorm_stats(SAMPLE_STDERR).unwrap();
    assert_eq!(stats.input_i, "-23.50");
    assert_eq!(stats.input_tp, "-6.00");
    assert_eq!(stats.input_lra, "5.00");
    assert_eq!(stats.input_thresh, "-33.50");
    assert_eq!(stats.target_offset, "0.50");
}

#[test]
fn extract_loudnorm_stats_missing_json_errors() {
    let stderr = "Input #0, wav, from 'input.wav':\nno json here at all\n";
    assert!(extract_loudnorm_stats(stderr).is_err());
    assert_eq!(loudnorm_report(stderr), Err(ReportError::Missing));
}

#[test]
fn extract_loudnorm_stats_malformed_json_errors() {
    let stderr = "[Parsed_loudnorm_0]\n{ this is not valid json }\n";
    assert!(extract_loudnorm_stats(stderr).is_err());
    assert_eq!(loudnorm_report(stderr), Ok("{ this is not valid json }".to_string()));
}

#[test]
fn extract_loudnorm_stats_only_opening_brace_errors() {
    let stderr = "[Parsed_loudnorm_0]\n{ \"input_i\": \"-23.50\" \n";
    assert!(extract_loudnorm_stats(stderr).is_err());
}

#[test]
fn extract_loudnorm_stats_trailing_open_brace_after_json_errors_without_panicking() {
    let stderr = "{ \"input_i\" : \"-23.50\" }\nffmpeg: unexpected {\n";
    assert!(extract_loudnorm_stats(stderr).is_err());
    assert_eq!(loudnorm_report(stderr), Err(ReportError::Malformed));
}

#[test]
fn extract_loudnorm_stats_braces_in_reverse_order_errors_without_panicking() {
    let stderr = "closing } first, opening { last";
    assert!(extract_loudnorm_stats(stderr).is_err());
}

#[test]
fn a_measurement_that_failed_is_worded_by_ffmpeg() {
    assert_eq!(
        measured_report("loudness measurement", false, "banner {}\nbad file\n"),
        Err("FFmpeg failed during loudness measurement: banner {}\nbad file".to_string())
    );
    assert_eq!(
        measured_report("loudness measurement", true, "nothing"),
        Err("Missing JSON in FFmpeg output".to_string())
    );
    assert_eq!(
        measured_report("loudness measurement", true, "} {"),
        Err("Malformed JSON block in FFmpeg output".to_string())
    );
    assert_eq!(measured_report("x", true, "a {b} c"), Ok("{b}".to_string()));
}

#[test]
fn only_a_finite_loudness_above_the_floor_is_usable() {
    assert_eq!(usable_loudness(Some(s(-23.5))), Some(s(-23.5)));
    assert_eq!(usable_loudness(Some(s(-99.0))), Some(s(-99.0)));
    assert_eq!(usable_loudness(Some(s(-99.1))), None);
    assert_eq!(usable_loudness(Some(s(f32::NEG_INFINITY))), None);
    assert_eq!(usable_loudness(Some(s(f32::NAN))), None);
    assert_eq!(usable_loudness(None), None);
    let stats = extract_loudnorm_stats(SAMPLE_STDERR).unwrap();
    assert_eq!(usable_stats(stats.clone(), Some(s(-23.5))), Some(stats.clone()));
    assert_eq!(usable_stats(stats, None), None);
}

// ---------------------------------------------------------------------------
// Failures
// ---------------------------------------------------------------------------

#[test]
fn ffmpeg_failed_keeps_the_tail_where_the_real_reason_lives() {
    let stderr = format!(
        "{}\nInvalid data found when processing input\n",
        "x".repeat(5000)
    );
    let err = ffmpeg_failed("conversion", &stderr).to_string();
    assert!(err.contains("Invalid data found"), "got: {err}");
    assert!(err.contains("conversion"));
    assert!(
        err.len() < 1000,
        "the tail should be bounded, got {}",
        err.len()
    );
}

#[test]
fn ffmpeg_failed_truncates_on_a_char_boundary() {
    let stderr = "ą".repeat(5000);
    let err = ffmpeg_failed("conversion", &stderr).to_string();
    assert!(err.contains('ą'));
    assert_eq!(err, format!("FFmpeg failed during conversion: ...{}", "ą".repeat(600)));
}

#[test]
fn ffmpeg_failed_reports_something_useful_when_stderr_is_empty() {
    let err = ffmpeg_failed("conversion", "   \n").to_string();
    assert!(err.contains("without reporting a reason"), "got: {err}");
}

#[test]
fn a_tail_of_just_the_bound_is_marked_as_cut() {
    assert_eq!(ffmpeg_failed("x", &"a".repeat(599)), format!("FFmpeg failed during x: {}", "a".repeat(599)));
    assert_eq!(ffmpeg_failed("x", &"a".repeat(600)), format!("FFmpeg failed during x: ...{}", "a".repeat(600)));
}

// ---------------------------------------------------------------------------
// Probing
// ---------------------------------------------------------------------------

#[test]
fn the_sample_rate_is_the_first_plausible_one() {
    assert_eq!(parse_sample_rate(SAMPLE_STDERR), Some(44_100));
    assert_eq!(parse_sample_rate("7999 Hz 192001 Hz 192000, Hz, stereo"), Some(192_000));
    assert_eq!(parse_sample_rate("8000 Hz"), Some(8_000));
    assert_eq!(parse_sample_rate("44100Hz"), None);
    assert_eq!(parse_sample_rate("44100 Hzz"), None);
    assert_eq!(parse_sample_rate(""), None);
    assert_eq!(get_sample_rate(Some(SAMPLE_STDERR)), Some(44_100));
    assert_eq!(get_sample_rate(None), None);
}

#[test]
fn the_duration_is_the_first_clock_in_a_line_about_it() {
    let clock = parse_duration(SAMPLE_STDERR).unwrap();
    assert_eq!((clock.hours.as_str(), clock.minutes.as_str(), clock.seconds.as_str()), ("00", "00", "05.00"));
    let clock = parse_duration("time=01:02:03\nDuration: N/A, start: 1:2, 01:30:7.5, x").unwrap();
    assert_eq!((clock.hours.as_str(), clock.minutes.as_str(), clock.seconds.as_str()), ("01", "30", "7.5"));
    assert!(parse_duration("Duration: N/A, start: 0.000").is_none());
    assert!(parse_duration("00:00:05.00").is_none());
    assert!(get_duration(None).is_none());
    assert!(get_duration(Some(SAMPLE_STDERR)).is_some());
    assert_eq!(duration_secs(s(1.0), s(2.0), s(3.5)), s(3723.5));
    let (rate, clock) = probe_input(Some(SAMPLE_STDERR));
    assert_eq!(rate, Some(44_100));
    assert_eq!(clock.unwrap().seconds, "05.00");
    let (rate, clock) = probe_input(None);
    assert!(rate.is_none() && clock.is_none());
}

#[test]
fn the_peak_is_the_number_behind_its_name() {
    let stderr = "[Parsed_volumedetect_0 @ 0x1] mean_volume: -20.0 dB\n[Parsed_volumedetect_0 @ 0x1] max_volume: -6.2 dB\n";
    assert_eq!(parse_max_volume(stderr).as_deref(), Some("-6.2"));
    assert_eq!(measured_peak(true, stderr), Ok("-6.2".to_string()));
    assert_eq!(measured_peak(true, "max_volume: none"), Err("Could not parse max_volume from FFmpeg output".to_string()));
    assert_eq!(measured_peak(false, "boom"), Err("FFmpeg failed during peak measurement: boom".to_string()));
    assert_eq!(parse_max_volume("max_volume: -inf dB").as_deref(), Some("-inf"));
    assert_eq!(parse_max_volume("max_volume:"), None);
    assert_eq!(parse_max_volume("max_volume: x max_volume: 1"), Some("1".to_string()));
}

// ---------------------------------------------------------------------------
// Command lines
// ---------------------------------------------------------------------------

#[test]
fn every_command_is_counted_and_reads_no_input() {
    let mut c = SpawnCounter::new();
    assert_eq!(spawn_count(&c), 0);
    assert_eq!(texts(&ffmpeg_cmd(&mut c)), vec!["-nostdin"]);
    ffmpeg_cmd(&mut c);
    assert_eq!(spawn_count(&c), 2);
    assert_eq!(reset_spawn_count(&mut c), 2);
    assert_eq!(spawn_count(&c), 0);
    assert_eq!(texts(&probe_cmd(&mut c)), vec!["-nostdin", "-hide_banner", "-i", "<in>"]);
    assert_eq!(spawn_count(&c), 1);
}

#[test]
fn measurements_differ_in_their_filter_only() {
    let mut cmd = empty();
    add_probe(&mut cmd);
    assert_eq!(texts(&cmd), vec!["-hide_banner", "-i", "<in>"]);
    let mut cmd = empty();
    add_measurement(&mut cmd, Source::Input, "x");
    assert_eq!(texts(&cmd), vec!["-y", "-hide_banner", "-i", "<in>", "-vn", "-af", "x", "-f", "null", "-"]);
    let mut cmd = empty();
    add_measurement(&mut cmd, Source::Stored, "x");
    assert_eq!(texts(&cmd)[3], "<stored>");
    let filter = |cmd: Vec<Arg>| texts(&cmd)[6].clone();
    let mut cmd = empty();
    add_overview_measurement(&mut cmd);
    assert_eq!(filter(cmd), "loudnorm=I=-23:TP=-1.5:LRA=1.0:print_format=json");
    let mut cmd = empty();
    add_stats_measurement(&mut cmd, Source::Input, "-16", Some("trim"));
    assert_eq!(filter(cmd), "trim,loudnorm=I=-16:TP=-1.5:LRA=1.0:print_format=json");
    let mut cmd = empty();
    add_padded_measurement(&mut cmd, Source::Input, "-16", "5", None);
    assert_eq!(
        filter(cmd),
        "apad=pad_dur=5,atrim=end=5,loudnorm=I=-16:TP=-1.5:LRA=1.0:print_format=json"
    );
    let mut cmd = empty();
    add_peak_measurement(&mut cmd, Source::Input, Some("trim"));
    assert_eq!(filter(cmd), "trim,volumedetect");
    assert_eq!(prefixed(None, "x"), "x");
}

#[test]
fn the_second_pass_hands_the_measurement_back() {
    let stats = extract_loudnorm_stats(SAMPLE_STDERR).unwrap();
    let mut cmd = empty();
    apply_loudnorm_pass2(&mut cmd, "-16.5", &stats, 22050, Some("p"));
    assert_eq!(
        texts(&cmd),
        vec![
            "-af",
            "p,loudnorm=I=-16.5:TP=-1.5:LRA=1.0:measured_I=-23.50:measured_LRA=5.00:measured_TP=-6.00:\
             measured_thresh=-33.50:offset=0.50:linear=true",
            "-ar",
            "22050"
        ]
    );
}

#[test]
fn ffmpeg_on_the_path_is_preferred() {
    assert!(matches!(choose_ffmpeg(true, true), Ok(FfmpegPlace::OnPath)));
    assert!(matches!(choose_ffmpeg(false, true), Ok(FfmpegPlace::BesideApplication)));
    assert_eq!(
        choose_ffmpeg(false, false).err(),
        Some("FFmpeg not found.\nPlace ffmpeg.exe in the same folder as this application, or add it to your system PATH.")
    );
}
