//! Which files of a folder are processed, and what is reported of them.

use vocan::batch::{
    file_report, pick, worker_threads, Candidate, FileOutcome, LoudnessOutcome, LoudnessTally,
    Place,
};
use vocan::single::Single;
use vocan::types::{AppMsg, NormResult};

fn s(x: f32) -> Single {
    Single::from_bits(x.to_bits())
}

fn file(shown: &str, key: &str) -> Candidate {
    Candidate {
        shown: shown.to_string(),
        place: Ok(Place { key: key.to_string(), shown: format!("out/{key}") }),
    }
}

fn said(m: &AppMsg) -> String {
    match m {
        AppMsg::Log(t) => t.clone(),
        AppMsg::Error(t) => format!("[ERROR] {t}"),
        AppMsg::Finished => "finished".to_string(),
        AppMsg::Stopped => "stopped".to_string(),
        AppMsg::Progress(a, b) => format!("{a}/{b}"),
        AppMsg::AnalysisResult(v) => format!("{}", f32::from_bits(v.to_bits())),
    }
}

#[test]
fn only_the_first_of_several_files_with_one_output_is_kept() {
    let found = vec![
        file("line1.wav", "line1"),
        file("line2.wav", "line2"),
        file("line1.mp3", "line1"),
        Candidate { shown: "odd.wav".to_string(), place: Err("prefix not found".to_string()) },
        file("line1.ogg", "line1"),
        file("line3.wav", "line3"),
    ];
    let picked = pick(&found);
    assert_eq!(picked.keep, vec![0, 1, 5]);
    assert_eq!(
        picked.errors,
        vec![
            "Skipping line1.mp3: it would be written to the same file as line1.wav (out/line1). \
             Rename one of them so both can be converted.",
            "Skipping odd.wav: cannot determine its output path: prefix not found",
            "Skipping line1.ogg: it would be written to the same file as line1.wav (out/line1). \
             Rename one of them so both can be converted.",
        ]
    );
    assert!(pick(&Vec::new()).keep.is_empty());
}

#[test]
fn one_core_is_left_to_the_window() {
    assert_eq!(worker_threads(8), 7);
    assert_eq!(worker_threads(1), 1);
    assert_eq!(worker_threads(0), 1);
}

#[test]
fn each_outcome_of_a_file_is_reported() {
    let cases = [
        (FileOutcome::Done(NormResult::Standard), "Processed (LUFS 2-pass): a.wav"),
        (FileOutcome::Done(NormResult::Padded), "Processed (LUFS 2-pass + padding): a.wav"),
        (FileOutcome::Done(NormResult::Peak { gain_db: s(2.55) }), "Processed (peak norm, gain 2.5 dB): a.wav"),
        (FileOutcome::Done(NormResult::Skipped), "Converted without normalization (silent/empty): a.wav"),
        (FileOutcome::Failed("boom".to_string()), "[ERROR] Error a.wav: boom"),
        (FileOutcome::Panicked, "[ERROR] Panic while processing: a.wav"),
    ];
    for (outcome, expected) in &cases {
        assert_eq!(said(&file_report("a.wav", outcome)), *expected);
    }
}

#[test]
fn the_average_is_over_the_files_that_could_be_measured() {
    let mut t = LoudnessTally::new();
    assert!(t.add("a", &LoudnessOutcome::Measured(Some(s(-20.0)))).is_none());
    assert_eq!(
        said(&t.add("b", &LoudnessOutcome::Measured(None)).unwrap()),
        "Skipped in analysis (too short/quiet): b"
    );
    assert_eq!(
        said(&t.add("c", &LoudnessOutcome::Failed("x".to_string())).unwrap()),
        "Analysis error for c: x"
    );
    assert_eq!(
        said(&t.add("d", &LoudnessOutcome::Panicked).unwrap()),
        "[ERROR] Panic while analyzing: d"
    );
    assert!(t.add("e", &LoudnessOutcome::Measured(Some(s(-15.5)))).is_none());
    let end: Vec<String> = t.finish(false).iter().map(said).collect();
    assert_eq!(
        end,
        vec!["-17.75", "Analysis finished. Average LUFS: -17.75 (from 2 files)", "finished"]
    );
    let end: Vec<String> = t.finish(true).iter().map(said).collect();
    assert_eq!(end, vec!["Analysis stopped by user.", "stopped"]);
    let end: Vec<String> = LoudnessTally::new().finish(false).iter().map(said).collect();
    assert_eq!(end, vec!["[ERROR] No valid audio files found for analysis.", "finished"]);
}
