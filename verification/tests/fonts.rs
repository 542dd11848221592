//! The fonts of the window.

use vocan::theme::{heading_family, mono, sans, sans_bold, HeadingFamily};

#[test]
fn every_font_candidate_is_an_absolute_path() {
    for (name, list) in [("SANS", sans()), ("SANS_BOLD", sans_bold()), ("MONO", mono())] {
        assert!(!list.is_empty(), "{name} lists no candidates");
        for path in list {
            assert!(
                path.starts_with('/') || path.contains(":/"),
                "{name} candidate {path:?} is not absolute"
            );
        }
    }
}

#[test]
fn heading_family_falls_back_to_proportional_when_no_bold_face_loaded() {
    assert_eq!(heading_family(false), HeadingFamily::Proportional);
    assert_eq!(heading_family(true), HeadingFamily::Heading);
}

#[test]
fn the_preferred_fonts_come_first() {
    assert_eq!(sans()[0], "C:/Windows/Fonts/segoeui.ttf");
    assert_eq!(sans().len(), 10);
    assert_eq!(sans_bold().len(), 9);
    assert_eq!(mono()[2], "C:/Windows/Fonts/consola.ttf");
}
