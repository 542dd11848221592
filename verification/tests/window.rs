//! The state of the window, and the messages that change it.

use std::path::{Component, Path};
use vocan::app::{
    format_short, percent, split_log_line, AudioBatchApp, Section, Tone, MAX_LOG_LINES,
    MAX_LOG_LINE_CHARS,
};
use vocan::batch::{
    end_of_lost_run, end_of_run, messages_on_drop, output_nested_in_input, same_folder, same_ignoring_case,
    same_path, validate_folders, FolderFacts,
};
use vocan::paths::{FilePath, Part};
use vocan::single::Single;
use vocan::types::{
    AppMsg, OutputFormat, ProcessingOptions, ReductionProfile, SilencePad, SilenceThreshold,
};
use vocan::ui::{segment_change, Icon};

fn s(x: f32) -> Single {
    Single::from_bits(x.to_bits())
}

fn f(x: Single) -> f32 {
    f32::from_bits(x.to_bits())
}

fn p(text: &str) -> FilePath {
    let parts = Path::new(text)
        .components()
        .map(|c| match c {
            Component::Prefix(x) => Part::Prefix(x.as_os_str().to_str().unwrap().as_bytes().to_vec()),
            Component::RootDir => Part::Root,
            Component::CurDir => Part::CurDir,
            Component::ParentDir => Part::ParentDir,
            Component::Normal(n) => Part::Normal(n.to_str().unwrap().as_bytes().to_vec()),
        })
        .collect();
    FilePath { parts }
}

fn test_app() -> AudioBatchApp {
    AudioBatchApp::new()
}

/// What is found out about two folders that resolve to themselves.
fn facts(input: &str, output: &str, source_is_dir: bool) -> FolderFacts {
    let (i, o) = (p(input), p(output));
    FolderFacts {
        source_is_dir,
        output_error: None,
        same: same_folder(Some(&i), Some(&o), same_path(&i, &o)),
        nested: output_nested_in_input(Some(&i), Some(&o)),
    }
}

// ---------------------------------------------------------------------------
// Folders
// ---------------------------------------------------------------------------

#[test]
fn same_folder_true_for_identical_nonexistent_paths() {
    let path = p("/nonexistent/vocan-test-path-xyz");
    assert!(same_folder(None, None, same_path(&path, &path)));
}

#[test]
fn same_folder_false_for_different_paths() {
    let a = p("/nonexistent/vocan-test-a");
    let b = p("/nonexistent/vocan-test-b");
    assert!(!same_folder(None, None, same_path(&a, &b)));
}

#[test]
fn same_folder_true_for_equivalent_paths_via_canonicalize() {
    let direct = p("/root/subdir");
    let via_sibling = p("/root/sibling/../subdir");
    assert!(!same_path(&direct, &via_sibling), "the paths should differ textually");
    let resolved = p("/root/subdir");
    assert!(same_folder(Some(&resolved), Some(&direct), same_path(&direct, &via_sibling)));
}

#[test]
fn same_folder_ignores_case_when_neither_path_can_be_canonicalized() {
    let a = r"C:\nonexistent\VOCAN-Case-Test";
    let b = r"C:\nonexistent\vocan-case-test";
    assert_ne!(a, b, "the paths must differ textually");
    assert!(same_folder(None, None, same_ignoring_case(a, b)));
    assert!(!same_ignoring_case(a, r"C:\nonexistent\other"));
}

#[test]
fn validate_folders_rejects_a_nested_output_folder() {
    let (input, output) = ("/tmp/take", "/tmp/take/out");
    let err = validate_folders(input, output, &facts(input, output, true))
        .expect_err("nested output must be rejected");
    assert!(err.contains("inside the source folder"), "got: {err}");
    assert!(err.contains("(/tmp/take/out is under /tmp/take)"), "got: {err}");
}

#[test]
fn validate_folders_rejects_a_missing_source_folder() {
    let (missing, output) = ("/tmp/does-not-exist", "/tmp/out");
    let err = validate_folders(missing, output, &facts(missing, output, false))
        .expect_err("missing source must be rejected");
    assert!(err.contains("does not exist"), "got: {err}");
    assert_eq!(err, "Source folder does not exist, or is not a folder: /tmp/does-not-exist");
}

#[test]
fn validate_folders_accepts_a_sibling_output_and_creates_it() {
    let (input, output) = ("/tmp/in", "/tmp/out");
    validate_folders(input, output, &facts(input, output, true)).expect("sibling folders are fine");
    let mut refused = facts(input, output, true);
    refused.output_error = Some("denied".to_string());
    assert_eq!(
        validate_folders(input, output, &refused),
        Err("Cannot create the output folder /tmp/out: denied".to_string())
    );
}

#[test]
fn validate_folders_accepts_a_source_nested_inside_the_output() {
    let (input, output) = ("/tmp/out/src", "/tmp/out");
    assert!(validate_folders(input, output, &facts(input, output, true)).is_ok());
}

// ---------------------------------------------------------------------------
// Runs
// ---------------------------------------------------------------------------

#[test]
fn start_processing_refuses_when_output_equals_input() {
    let dir = "/tmp/take";
    let mut app = test_app();
    app.input_dir = dir.to_string();
    app.output_dir = dir.to_string();

    assert!(!app.start_processing(validate_folders(dir, dir, &facts(dir, dir, true))));

    assert!(
        !app.is_processing,
        "must not start processing when input == output"
    );
    assert_eq!(app.logs.len(), 1);
    assert!(app.logs[0].starts_with("[ERROR]"));
    assert_eq!(app.error_count, 1);
    assert!(app.folder_notice().is_some());
}

#[test]
fn completion_guard_delivers_finished_when_dropped_without_disarm() {
    let mut app = test_app();
    app.is_processing = true;
    app.handle_messages(messages_on_drop(true));
    assert!(
        !app.is_processing,
        "a guard dropped without disarm must deliver Finished"
    );
    assert!(app.logs.iter().any(|l| l.starts_with("[ERROR]")));
}

#[test]
fn completion_guard_stays_silent_after_disarm() {
    let mut app = test_app();
    app.is_processing = true;
    app.handle_messages(messages_on_drop(false));
    assert!(
        app.is_processing,
        "a disarmed guard must not send anything of its own"
    );
    assert!(app.logs.is_empty());
}

#[test]
fn a_lost_run_is_reported_as_an_error_and_ended() {
    let messages = messages_on_drop(true);
    assert_eq!(messages.len(), 2);
    assert!(matches!(&messages[0], AppMsg::Error(t) if t.starts_with("Worker thread ended unexpectedly;")));
    assert!(matches!(messages[1], AppMsg::Finished));
    assert_eq!(end_of_lost_run().len(), 2);
    assert!(messages_on_drop(false).is_empty());
}

#[test]
fn start_processing_is_a_no_op_while_a_run_is_already_in_flight() {
    for (processing, analyzing) in [(true, false), (false, true)] {
        let mut app = test_app();
        app.input_dir = "/tmp/in".to_string();
        app.output_dir = "/tmp/out".to_string();
        app.push_log("pre-existing".to_string());
        app.is_processing = processing;
        app.is_analyzing = analyzing;

        assert!(!app.start_processing(Ok(())));

        assert_eq!(
            app.logs.len(),
            1,
            "re-entrant call (processing={processing}, analyzing={analyzing}) \
             must not clear state or spawn a second run"
        );
        assert!(!app.start_analysis(Some("/tmp/in")));
        assert_eq!(app.logs.len(), 1);
    }
}

#[test]
fn a_run_starts_with_an_empty_log_and_no_errors() {
    let mut app = test_app();
    app.handle_message(AppMsg::Error("old".to_string()));
    app.handle_message(AppMsg::Progress(4, 5));
    assert_eq!(app.error_count, 1);
    assert!(app.start_processing(Ok(())));
    assert!(app.is_processing);
    assert!(app.logs.is_empty());
    assert_eq!((app.current_progress, app.total_files, app.error_count), (0, 0, 0));
    app.handle_messages(end_of_run(true));
    assert!(!app.is_processing);
    assert_eq!(app.logs, vec!["Processing stopped by user.".to_string()]);
    app.handle_messages(end_of_run(false));
    assert_eq!(app.logs.back().unwrap(), "Processing finished.");
}

#[test]
fn an_analysis_keeps_the_log_and_forgets_the_last_average() {
    let mut app = test_app();
    app.push_log("kept".to_string());
    app.average_lufs = Some(s(-20.0));
    assert!(!app.start_analysis(None), "nothing was picked");
    assert_eq!(app.average_lufs, Some(s(-20.0)));
    assert!(app.start_analysis(Some("/takes")));
    assert_eq!(
        app.logs,
        vec!["kept".to_string(), "Started folder analysis: /takes".to_string()]
    );
    assert_eq!(app.average_lufs, None);
    assert!(app.is_analyzing && !app.is_processing);
    assert_eq!(app.activity(), "Analyzing");
    app.stop_requested();
    assert_eq!(app.logs.back().unwrap(), "Stop requested \u{2014} finishing up...");
}

#[test]
fn the_pane_follows_a_run_once() {
    let mut app = test_app();
    app.follow_run();
    assert_eq!(app.section, Section::Files);
    app.is_processing = true;
    app.follow_run();
    assert_eq!(app.section, Section::Logs);
    app.section = Section::Loudness;
    app.follow_run();
    assert_eq!(app.section, Section::Loudness);
    assert!(!app.section_enabled());
    app.is_processing = false;
    app.follow_run();
    assert!(!app.followed_run);
    assert!(app.section_enabled());
}

// ---------------------------------------------------------------------------
// Messages
// ---------------------------------------------------------------------------

#[test]
fn handle_messages_appends_log_line() {
    let mut app = test_app();
    app.handle_messages(vec![AppMsg::Log("hello".to_string())]);
    assert_eq!(app.logs, vec!["hello".to_string()]);
}

#[test]
fn handle_messages_prefixes_error_with_error_tag() {
    let mut app = test_app();
    app.handle_messages(vec![AppMsg::Error("boom".to_string())]);
    assert_eq!(app.logs, vec!["[ERROR] boom".to_string()]);
}

#[test]
fn handle_messages_updates_progress_counters() {
    let mut app = test_app();
    app.handle_messages(vec![AppMsg::Progress(3, 10)]);
    assert_eq!(app.current_progress, 3);
    assert_eq!(app.total_files, 10);
}

#[test]
fn handle_messages_finished_clears_processing_and_analyzing_flags() {
    let mut app = test_app();
    app.is_processing = true;
    app.is_analyzing = true;
    app.handle_messages(vec![AppMsg::Finished]);
    assert!(!app.is_processing);
    assert!(!app.is_analyzing);
}

#[test]
fn handle_messages_stopped_clears_processing_and_analyzing_flags() {
    let mut app = test_app();
    app.is_processing = true;
    app.is_analyzing = true;
    app.handle_messages(vec![AppMsg::Stopped]);
    assert!(!app.is_processing);
    assert!(!app.is_analyzing);
}

#[test]
fn handle_messages_analysis_result_sets_average_lufs() {
    let mut app = test_app();
    app.handle_messages(vec![AppMsg::AnalysisResult(s(-16.3))]);
    assert_eq!(app.average_lufs, Some(s(-16.3)));
}

#[test]
fn handle_messages_drains_multiple_queued_messages_in_order() {
    let mut app = test_app();
    app.handle_messages(vec![
        AppMsg::Log("a".to_string()),
        AppMsg::Progress(1, 2),
        AppMsg::Log("b".to_string()),
    ]);
    assert_eq!(app.logs, vec!["a".to_string(), "b".to_string()]);
    assert_eq!(app.current_progress, 1);
    assert_eq!(app.total_files, 2);
}

#[test]
fn handle_messages_on_empty_channel_is_a_no_op() {
    let mut app = test_app();
    app.handle_messages(Vec::new());
    assert!(app.logs.is_empty());
    assert_eq!(app.current_progress, 0);
    assert_eq!(app.total_files, 0);
}

#[test]
fn progress_that_arrives_out_of_order_never_goes_back() {
    let mut app = test_app();
    app.handle_messages(vec![AppMsg::Progress(5, 10), AppMsg::Progress(4, 10)]);
    assert_eq!(app.current_progress, 5);
}

// ---------------------------------------------------------------------------
// The log
// ---------------------------------------------------------------------------

#[test]
fn push_log_evicts_oldest_lines_past_the_cap() {
    let mut app = test_app();
    for i in 0..MAX_LOG_LINES + 10 {
        app.push_log(format!("line {i}"));
    }
    assert_eq!(app.logs.len(), MAX_LOG_LINES);
    assert_eq!(app.logs.front().unwrap(), "line 10");
    assert_eq!(
        app.logs.back().unwrap(),
        &format!("line {}", MAX_LOG_LINES + 9)
    );
}

#[test]
fn push_log_truncates_an_over_long_line() {
    let mut app = test_app();
    app.push_log("x".repeat(MAX_LOG_LINE_CHARS * 3));
    let line = app.logs.front().unwrap();
    assert!(line.ends_with("... [truncated]"));
    assert_eq!(
        line.chars().count(),
        MAX_LOG_LINE_CHARS + "... [truncated]".len()
    );
}

#[test]
fn push_log_truncates_on_a_char_boundary() {
    let mut app = test_app();
    app.push_log("ą".repeat(MAX_LOG_LINE_CHARS * 2));
    let line = app.logs.front().unwrap();
    assert!(line.starts_with('ą'));
    assert!(line.ends_with("... [truncated]"));
}

#[test]
fn errors_are_counted_as_long_as_they_are_kept() {
    let mut app = test_app();
    app.handle_message(AppMsg::Error("x".repeat(5 * MAX_LOG_LINE_CHARS)));
    app.handle_message(AppMsg::Error("short".to_string()));
    assert_eq!(app.error_count, 2);
    assert_eq!(app.summary_logs(), ("2 errors".to_string(), Tone::Red));
    for i in 0..MAX_LOG_LINES - 1 {
        app.push_log(format!("line {i}"));
    }
    assert_eq!(app.error_count, 1);
    assert_eq!(app.summary_logs(), ("1 error".to_string(), Tone::Red));
    app.push_log("last".to_string());
    assert_eq!(app.summary_logs(), ("5000".to_string(), Tone::Muted));
}

#[test]
fn log_lines_are_split_behind_the_last_folder() {
    let l = split_log_line("Processed (LUFS 2-pass): a/b\\c.wav");
    assert!(!l.error);
    assert_eq!(l.dim, "Processed (LUFS 2-pass): a/b\\");
    assert_eq!(l.bright, "c.wav");
    let l = split_log_line("[ERROR] boom");
    assert!(l.error);
    assert_eq!((l.dim.as_str(), l.bright.as_str()), ("", "[ERROR] boom"));
}

// ---------------------------------------------------------------------------
// Settings
// ---------------------------------------------------------------------------

#[test]
fn processing_options_default_matches_the_ui_defaults() {
    let ProcessingOptions {
        target_lufs,
        target_peak_dbfs,
        automixer,
        automixer_spectral_gate,
        automixer_nn_dereverb,
        automixer_dfn3_dereverb,
        automixer_dfn3_mix,
        automixer_dfn3_postfilter,
        automixer_expander,
        automixer_expander_safety_pct,
        automixer_expander_reduction_profile,
        trim_silence,
        trim_silence_threshold,
        trim_silence_pad,
        output_format,
        bitrate_kbps,
    } = test_app().processing_options();

    let d = ProcessingOptions::default();
    assert_eq!(target_lufs, d.target_lufs);
    assert_eq!(target_peak_dbfs, d.target_peak_dbfs);
    assert_eq!(automixer, d.automixer);
    assert_eq!(automixer_spectral_gate, d.automixer_spectral_gate);
    assert_eq!(automixer_nn_dereverb, d.automixer_nn_dereverb);
    assert_eq!(automixer_dfn3_dereverb, d.automixer_dfn3_dereverb);
    assert_eq!(automixer_dfn3_mix, d.automixer_dfn3_mix);
    assert_eq!(automixer_dfn3_postfilter, d.automixer_dfn3_postfilter);
    assert_eq!(automixer_expander, d.automixer_expander);
    assert_eq!(
        automixer_expander_safety_pct,
        d.automixer_expander_safety_pct
    );
    assert_eq!(
        automixer_expander_reduction_profile,
        d.automixer_expander_reduction_profile
    );
    assert_eq!(trim_silence, d.trim_silence);
    assert_eq!(trim_silence_threshold, SilenceThreshold::default());
    assert_eq!(trim_silence_pad, SilencePad::default());
    assert_eq!(output_format, d.output_format);
    assert_eq!(bitrate_kbps, d.bitrate_kbps);
}

#[test]
fn new_app_has_sane_defaults() {
    let app = test_app();
    assert!(!app.normalize_volume);
    assert!(!app.automixer);
    assert!(!app.trim_silence);
    assert!(!app.is_processing);
    assert!(!app.is_analyzing);
    assert_eq!(app.average_lufs, None);
    assert_eq!(app.output_format, OutputFormat::AdpcmWav);
    assert_eq!(
        app.automixer_expander_reduction_profile,
        ReductionProfile::Recommended
    );
}

#[test]
fn a_missing_ffmpeg_is_logged_and_kept() {
    let app = AudioBatchApp::from_ffmpeg_lookup(Err("no ffmpeg".to_string()));
    assert_eq!(app.logs, vec!["[ERROR] no ffmpeg".to_string()]);
    assert_eq!(app.ffmpeg_error, Some("no ffmpeg".to_string()));
    assert_eq!(app.error_count, 1);
    assert!(!app.is_processing && !app.is_analyzing && !app.normalize_volume);
    assert_eq!(app.section, Section::Files);
    assert_eq!(f(app.target_lufs), -14.0);
    let app = AudioBatchApp::from_ffmpeg_lookup(Ok(()));
    assert!(app.logs.is_empty() && app.ffmpeg_error.is_none());
}

#[test]
fn normalization_hands_the_target_over() {
    let mut app = test_app();
    app.normalize_volume = true;
    app.average_lufs = Some(s(-16.5));
    app.set_target_to_average();
    assert_eq!(f(app.target_lufs), -17.0);
    assert_eq!(app.processing_options().target_lufs, Some(s(-17.0)));
}

#[test]
fn at_most_one_noise_reduction_is_on() {
    let mut app = test_app();
    for (segment, gate, nn) in [(1, true, false), (2, false, true), (0, false, false)] {
        app.choose_noise_reduction(segment);
        assert_eq!((app.automixer_spectral_gate, app.automixer_nn_dereverb), (gate, nn));
        assert_eq!(app.noise_reduction(), segment);
    }
}

#[test]
fn summaries_say_what_would_stop_a_run_first() {
    let mut app = test_app();
    assert!(!app.can_start());
    assert_eq!(app.summary_files(), ("not set".to_string(), Tone::Amber));
    assert_eq!(app.summary_cleanup(), ("off".to_string(), Tone::Muted));
    assert_eq!(app.summary_loudness(), ("off".to_string(), Tone::Muted));
    assert_eq!(app.summary_logs(), (String::new(), Tone::Muted));
    app.input_dir = "/in".to_string();
    app.output_dir = "/out".to_string();
    app.trim_silence = true;
    app.automixer = true;
    app.automixer_expander = true;
    app.normalize_volume = true;
    assert!(app.can_start());
    assert_eq!(app.summary_files(), ("ADPCM + trim".to_string(), Tone::Muted));
    assert_eq!(app.summary_cleanup(), ("2 stages".to_string(), Tone::Muted));
    assert_eq!(app.summary_loudness(), ("-14.0".to_string(), Tone::Muted));
    assert_eq!(
        app.recipe(),
        "ADPCM   \u{b7}   -14.0 LUFS   \u{b7}   trim silence   \u{b7}   clean up: expander, voice EQ"
    );
}

#[test]
fn the_recipe_of_the_defaults() {
    let mut app = test_app();
    app.output_format = OutputFormat::Mp3;
    assert_eq!(app.recipe(), "MP3 128k   \u{b7}   no normalization   \u{b7}   no clean-up");
    assert_eq!(format_short(OutputFormat::Ogg, 64), "OGG 64k");
    assert_eq!(format_short(OutputFormat::Pcm24Wav, 64), "PCM 24");
}

#[test]
fn notices_are_given_where_they_are_due() {
    let mut app = test_app();
    assert!(app.folder_notice().is_none() && app.bitrate_notice().is_none());
    app.bitrate_kbps = 48;
    assert!(app.bitrate_notice().is_none());
    app.output_format = OutputFormat::Ogg;
    assert!(app.bitrate_notice().is_some());
    app.automixer_expander_reduction_profile = ReductionProfile::Max;
    assert!(app.reduction_notice().is_none());
    app.automixer_expander = true;
    assert!(app.reduction_notice().is_some());
}

#[test]
fn progress_is_shown_in_percent_and_as_a_count() {
    let mut app = test_app();
    assert_eq!(app.progress_percent(), "0%");
    app.handle_message(AppMsg::Progress(2, 3));
    assert_eq!(app.progress_fraction(), s(2.0 / 3.0));
    assert_eq!(app.progress_percent(), "67%");
    assert_eq!(app.progress_count(), "2 / 3 files");
    assert_eq!(app.activity(), "Processing");
    assert_eq!(percent(s(80.0)), "80%");
}

#[test]
fn the_sections_of_the_rail() {
    assert_eq!(Section::default(), Section::Files);
    assert_eq!(Section::CleanUp.title(), "Clean up");
    assert_eq!(Section::Logs.description(), "One line per file, plus anything that went wrong.");
    assert_eq!(Section::Loudness.icon(), Icon::Bars);
}

#[test]
fn a_click_on_the_selected_segment_changes_nothing() {
    assert_eq!(segment_change(1, Some(1)), None);
    assert_eq!(segment_change(1, Some(2)), Some(2));
    assert_eq!(segment_change(1, None), None);
}
