//! The choices that drive a conversion.

use vocan::single::Single;
use vocan::types::{
    OutputFormat, ProcessingOptions, ReductionProfile, SilencePad, SilenceThreshold,
};

fn f(x: Single) -> f32 {
    f32::from_bits(x.to_bits())
}

#[test]
fn reduction_profile_db_matches_documented_values() {
    assert_eq!(f(ReductionProfile::Safe.db()), -8.0);
    assert_eq!(f(ReductionProfile::Recommended.db()), -12.0);
    assert_eq!(f(ReductionProfile::Hard.db()), -18.0);
    assert_eq!(f(ReductionProfile::Max.db()), -32.0);
}

#[test]
fn reduction_profile_all_lists_every_variant_once() {
    let all = ReductionProfile::all();
    assert_eq!(all.len(), 4);
    assert_eq!(
        all,
        &[
            ReductionProfile::Safe,
            ReductionProfile::Recommended,
            ReductionProfile::Hard,
            ReductionProfile::Max,
        ]
    );
}

#[test]
fn reduction_profile_default_is_recommended() {
    assert_eq!(ReductionProfile::default(), ReductionProfile::Recommended);
}

#[test]
fn silence_threshold_db_matches_documented_values() {
    assert_eq!(f(SilenceThreshold::Safe.db()), -60.0);
    assert_eq!(f(SilenceThreshold::Recommended.db()), -45.0);
    assert_eq!(f(SilenceThreshold::Hard.db()), -32.0);
    assert_eq!(f(SilenceThreshold::Max.db()), -21.0);
}

#[test]
fn silence_threshold_is_ordered_from_least_to_most_aggressive() {
    let dbs: Vec<f32> = SilenceThreshold::all().iter().map(|t| f(t.db())).collect();
    assert!(dbs.windows(2).all(|w| w[0] < w[1]), "{dbs:?}");
    assert_eq!(SilenceThreshold::all().last(), Some(&SilenceThreshold::Max));
}

#[test]
fn silence_threshold_all_lists_every_variant_once() {
    assert_eq!(
        SilenceThreshold::all(),
        &[
            SilenceThreshold::Safe,
            SilenceThreshold::Recommended,
            SilenceThreshold::Hard,
            SilenceThreshold::Max,
        ]
    );
}

#[test]
fn silence_threshold_default_is_recommended() {
    assert_eq!(SilenceThreshold::default(), SilenceThreshold::Recommended);
}

#[test]
fn silence_pad_secs_matches_documented_values() {
    assert_eq!(f(SilencePad::Tight.secs()), 0.0);
    assert_eq!(f(SilencePad::Short.secs()), 0.25);
    assert_eq!(f(SilencePad::Medium.secs()), 0.5);
    assert_eq!(f(SilencePad::Long.secs()), 1.0);
}

#[test]
fn silence_pad_all_lists_every_variant_once() {
    assert_eq!(
        SilencePad::all(),
        &[
            SilencePad::Tight,
            SilencePad::Short,
            SilencePad::Medium,
            SilencePad::Long,
        ]
    );
}

#[test]
fn silence_pad_default_is_tight() {
    assert_eq!(SilencePad::default(), SilencePad::Tight);
    assert_eq!(f(SilencePad::default().secs()), 0.0);
}

#[test]
fn output_format_extension_codec_and_bitrate_flag_are_consistent() {
    let cases: &[(OutputFormat, &str, &str, bool)] = &[
        (OutputFormat::AdpcmWav, "wav", "adpcm_ima_wav", false),
        (OutputFormat::Pcm16Wav, "wav", "pcm_s16le", false),
        (OutputFormat::Pcm24Wav, "wav", "pcm_s24le", false),
        (OutputFormat::Flac, "flac", "flac", false),
        (OutputFormat::Mp3, "mp3", "libmp3lame", true),
        (OutputFormat::Ogg, "ogg", "libvorbis", true),
    ];
    for (format, extension, codec, needs_bitrate) in cases {
        assert_eq!(format.extension(), *extension, "{format:?} extension");
        assert_eq!(format.ffmpeg_codec(), *codec, "{format:?} codec");
        assert_eq!(
            format.needs_bitrate(),
            *needs_bitrate,
            "{format:?} needs_bitrate"
        );
    }
}

#[test]
fn output_format_all_lists_every_variant_once() {
    assert_eq!(OutputFormat::all().len(), 6);
}

#[test]
fn output_format_default_is_adpcm_wav() {
    assert_eq!(OutputFormat::default(), OutputFormat::AdpcmWav);
}

#[test]
fn labels_read_as_in_the_dropdowns() {
    assert_eq!(ReductionProfile::Max.label(), "MAX (-32.0 dB)");
    assert_eq!(SilenceThreshold::Recommended.label(), "Recommended (-45 dB)");
    assert_eq!(SilencePad::Short.label(), "Short (0.25 s)");
    assert_eq!(OutputFormat::AdpcmWav.label(), "4-bit ADPCM WAV (suggested for game VO)");
    assert_eq!(OutputFormat::Ogg.label(), "OGG Vorbis");
}

#[test]
fn default_options_are_those_the_application_starts_with() {
    let d = ProcessingOptions::default();
    assert!(d.target_lufs.is_none());
    assert_eq!(f(d.target_peak_dbfs), -3.0);
    assert_eq!(f(d.automixer_dfn3_mix), 80.0);
    assert_eq!(f(d.automixer_expander_safety_pct), 50.0);
    assert_eq!(d.bitrate_kbps, 128);
}
