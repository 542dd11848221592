//! Paths: where outputs and scratch files go.

use std::path::{Component, Path};
use vocan::paths::{
    is_audio_file, output_path_for, partial_path, tool_beside, FilePath, Part, PathError,
};
use vocan::types::OutputFormat;

fn p(text: &str) -> FilePath {
    let parts = Path::new(text)
        .components()
        .map(|c| match c {
            Component::Prefix(x) => Part::Prefix(x.as_os_str().to_str().unwrap().as_bytes().to_vec()),
            Component::RootDir => Part::Root,
            Component::CurDir => Part::CurDir,
            Component::ParentDir => Part::ParentDir,
            Component::Normal(n) => Part::Normal(n.to_str().unwrap().as_bytes().to_vec()),
        })
        .collect();
    FilePath { parts }
}

#[test]
fn output_path_for_mirrors_the_input_tree_and_rewrites_the_extension() {
    let out = output_path_for(
        &p("/in/voice/line1.mp3"),
        &p("/in"),
        &p("/out"),
        OutputFormat::Flac,
    )
    .unwrap();
    assert_eq!(out, p("/out/voice/line1.flac"));
}

#[test]
fn output_path_for_maps_different_source_extensions_onto_one_output() {
    let a = output_path_for(
        &p("/in/line1.wav"),
        &p("/in"),
        &p("/out"),
        OutputFormat::AdpcmWav,
    )
    .unwrap();
    let b = output_path_for(
        &p("/in/line1.mp3"),
        &p("/in"),
        &p("/out"),
        OutputFormat::AdpcmWav,
    )
    .unwrap();
    assert_eq!(a, b, "this is the collision, and it must be detectable");
}

#[test]
fn partial_path_keeps_the_extension_ffmpeg_selects_its_muxer_from() {
    assert_eq!(
        partial_path(&p("/out/voice/line1.wav")),
        p("/out/voice/line1.vocan-partial.wav")
    );
    assert_eq!(
        partial_path(&p("/out/line1.flac")),
        p("/out/line1.vocan-partial.flac")
    );
}

#[test]
fn partial_path_stays_in_the_destination_directory() {
    let mut partial = partial_path(&p("/out/voice/line1.wav"));
    partial.parts.pop();
    assert_eq!(partial, p("/out/voice"));
}

#[test]
fn output_path_for_errors_when_the_input_is_outside_the_base() {
    let r = output_path_for(
        &p("/elsewhere/line1.wav"),
        &p("/in"),
        &p("/out"),
        OutputFormat::AdpcmWav,
    );
    assert_eq!(r, Err(PathError::OutsideBase));
    assert_eq!(PathError::OutsideBase.message(), "prefix not found");
}

#[test]
fn outputs_are_those_of_the_standard_library() {
    let cases = [
        ("/in/a.b.c.wav", "/in", "/out"),
        ("/in/.hidden", "/in", "/out"),
        ("/in/plain", "/in", "out"),
        ("in/sub/x.mp3", "in", "/out/deep"),
        ("/in/sub/../x.mp3", "/in", "/out"),
        ("./in/x.mp3", "./in", "/out"),
        ("x.mp3", "", "/out"),
        ("./x.mp3", "", "/out"),
        ("/abs/x.mp3", "", "/out"),
        ("/in/x.", "/in", "/out"),
        ("/in", "/in", "/out/last.txt"),
        ("/in/..", "/in", "/out"),
    ];
    for (input, base, output) in cases {
        let expected = Path::new(output)
            .join(Path::new(input).strip_prefix(base).unwrap())
            .with_extension("ogg");
        let got = output_path_for(&p(input), &p(base), &p(output), OutputFormat::Ogg).unwrap();
        assert_eq!(got, p(expected.to_str().unwrap()), "{input} {base} {output}");
    }
}

#[test]
fn scratch_names_of_odd_outputs() {
    assert_eq!(partial_path(&p("/out/.hidden")), p("/out/.hidden.vocan-partial."));
    assert_eq!(partial_path(&p("/out/plain")), p("/out/plain.vocan-partial."));
    assert_eq!(partial_path(&p("/")), p("/.vocan-partial."));
    assert_eq!(partial_path(&p("/out/a.b.wav")), p("/out/a.b.vocan-partial.wav"));
}

#[test]
fn audio_files_are_known_by_their_extension() {
    for name in [
        "a.wav", "a.WAVE", "a.Mp3", "a.flac", "a.aiff", "a.aif", "a.ogg", "a.opus", "a.m4a", "a.aac", "a.wma",
        "a.mp2", "a.ac3", "a.dts", "a.mka", "/x/y.z.wav",
    ] {
        assert!(is_audio_file(&p(name)), "{name}");
    }
    for name in ["", "/", "wav", ".wav", "a.txt", "a.wav.txt", "a.wav2", "a.wa", "a.wäv", "a.wav/..", "a."] {
        assert!(!is_audio_file(&p(name)), "{name}");
    }
    let raw = FilePath { parts: vec![Part::Normal(vec![b'a', b'.', 0xFF, b'w'])] };
    assert!(!is_audio_file(&raw));
    let raw = FilePath { parts: vec![Part::Normal(vec![0xFF, 0xFE, b'.', b'W', b'a', b'v'])] };
    assert!(is_audio_file(&raw), "a name that is not text may still have an extension that is");
}

#[test]
fn tools_are_looked_for_beside_ffmpeg_and_then_beside_the_application() {
    let exe = p("/opt/vocan/vocan");
    assert_eq!(
        tool_beside(&p("/usr/bin/ffmpeg"), Some(&exe), "deep-filter"),
        Some(p("/usr/bin/deep-filter"))
    );
    assert_eq!(
        tool_beside(&p("ffmpeg"), Some(&exe), "deep-filter"),
        Some(p("/opt/vocan/deep-filter"))
    );
    assert_eq!(tool_beside(&p("ffmpeg"), None, "deep-filter"), None);
}

#[test]
fn sub_paths_are_told_apart_by_whole_components() {
    assert!(p("/in/a").starts_with(&p("/in")));
    assert!(p("/in").starts_with(&p("/in")));
    assert!(!p("/input").starts_with(&p("/in")));
    assert!(!p("/in").starts_with(&p("/in/a")));
}

#[test]
fn outputs_have_scratch_names_of_their_own() {
    let outputs = ["/o/a.wav", "/o/a.b.wav", "/o/b.wav", "/o/a", "/o/a.flac", "/p/a.wav"];
    for (i, a) in outputs.iter().enumerate() {
        for b in &outputs[i + 1..] {
            assert_ne!(partial_path(&p(a)), partial_path(&p(b)), "{a} {b}");
        }
    }
    assert_eq!(partial_path(&p("/o/a")), partial_path(&p("/o/a.")), "only a dot at the end is lost");
}
