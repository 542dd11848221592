//! Which fonts the window is drawn with.

use vstd::prelude::*;

use crate::text;

verus! {

/// The family that headings are drawn in.
#[derive(Clone, Copy, PartialEq, Eq, Debug, Structural)]
pub enum HeadingFamily {
    /// The semibold face registered for headings.
    Heading,
    /// The face of ordinary text.
    Proportional,
}

/// The family to use for headings, given whether the semibold face loaded: a family that was
/// never registered must not be named.
pub fn heading_family(loaded: bool) -> (r: HeadingFamily)
    ensures
        r == if loaded {
            HeadingFamily::Heading
        } else {
            HeadingFamily::Proportional
        },
{
    if loaded {
        HeadingFamily::Heading
    } else {
        HeadingFamily::Proportional
    }
}

/// The path is absolute: it starts at the root, or names a drive.
pub open spec fn absolute(path: Seq<char>) -> bool {
    (path.len() > 0 && path[0] == '/') || text::contains(path, ":/"@)
}

/// Font files for body and UI text, the most preferred first.
pub open spec fn sans_paths() -> Seq<Seq<char>> {
    seq![
        "C:/Windows/Fonts/segoeui.ttf"@,
        "/System/Library/Fonts/SFNS.ttf"@,
        "/System/Library/Fonts/SFNSText.ttf"@,
        "/System/Library/Fonts/Helvetica.ttc"@,
        "/usr/share/fonts/truetype/noto/NotoSans-Regular.ttf"@,
        "/usr/share/fonts/truetype/liberation/LiberationSans-Regular.ttf"@,
        "/usr/share/fonts/truetype/dejavu/DejaVuSans.ttf"@,
        "/usr/share/fonts/noto/NotoSans-Regular.ttf"@,
        "/usr/share/fonts/liberation-sans/LiberationSans-Regular.ttf"@,
        "/usr/share/fonts/TTF/DejaVuSans.ttf"@,
    ]
}

/// Font files for body and UI text, the most preferred first.
pub fn sans() -> (r: Vec<&'static str>)
    ensures
        r@.len() == sans_paths().len(),
        forall|k: int| 0 <= k < r@.len() ==> r@[k]@ == #[trigger] sans_paths()[k],
{
    vec![
        "C:/Windows/Fonts/segoeui.ttf",
        "/System/Library/Fonts/SFNS.ttf",
        "/System/Library/Fonts/SFNSText.ttf",
        "/System/Library/Fonts/Helvetica.ttc",
        "/usr/share/fonts/truetype/noto/NotoSans-Regular.ttf",
        "/usr/share/fonts/truetype/liberation/LiberationSans-Regular.ttf",
        "/usr/share/fonts/truetype/dejavu/DejaVuSans.ttf",
        "/usr/share/fonts/noto/NotoSans-Regular.ttf",
        "/usr/share/fonts/liberation-sans/LiberationSans-Regular.ttf",
        "/usr/share/fonts/TTF/DejaVuSans.ttf",
    ]
}

/// Font files for section headings, the most preferred first.
pub open spec fn sans_bold_paths() -> Seq<Seq<char>> {
    seq![
        "C:/Windows/Fonts/seguisb.ttf"@,
        "/System/Library/Fonts/Supplemental/Arial Bold.ttf"@,
        "/Library/Fonts/Arial Bold.ttf"@,
        "/usr/share/fonts/truetype/noto/NotoSans-Bold.ttf"@,
        "/usr/share/fonts/truetype/liberation/LiberationSans-Bold.ttf"@,
        "/usr/share/fonts/truetype/dejavu/DejaVuSans-Bold.ttf"@,
        "/usr/share/fonts/noto/NotoSans-Bold.ttf"@,
        "/usr/share/fonts/liberation-sans/LiberationSans-Bold.ttf"@,
        "/usr/share/fonts/TTF/DejaVuSans-Bold.ttf"@,
    ]
}

/// Font files for section headings, the most preferred first.
pub fn sans_bold() -> (r: Vec<&'static str>)
    ensures
        r@.len() == sans_bold_paths().len(),
        forall|k: int| 0 <= k < r@.len() ==> r@[k]@ == #[trigger] sans_bold_paths()[k],
{
    vec![
        "C:/Windows/Fonts/seguisb.ttf",
        "/System/Library/Fonts/Supplemental/Arial Bold.ttf",
        "/Library/Fonts/Arial Bold.ttf",
        "/usr/share/fonts/truetype/noto/NotoSans-Bold.ttf",
        "/usr/share/fonts/truetype/liberation/LiberationSans-Bold.ttf",
        "/usr/share/fonts/truetype/dejavu/DejaVuSans-Bold.ttf",
        "/usr/share/fonts/noto/NotoSans-Bold.ttf",
        "/usr/share/fonts/liberation-sans/LiberationSans-Bold.ttf",
        "/usr/share/fonts/TTF/DejaVuSans-Bold.ttf",
    ]
}

/// Font files for numeric read-outs and paths, the most preferred first.
pub open spec fn mono_paths() -> Seq<Seq<char>> {
    seq![
        "C:/Windows/Fonts/CascadiaMono.ttf"@,
        "C:/Windows/Fonts/CascadiaCode.ttf"@,
        "C:/Windows/Fonts/consola.ttf"@,
        "/System/Library/Fonts/SFNSMono.ttf"@,
        "/System/Library/Fonts/Menlo.ttc"@,
        "/usr/share/fonts/truetype/noto/NotoSansMono-Regular.ttf"@,
        "/usr/share/fonts/truetype/liberation/LiberationMono-Regular.ttf"@,
        "/usr/share/fonts/truetype/dejavu/DejaVuSansMono.ttf"@,
        "/usr/share/fonts/noto/NotoSansMono-Regular.ttf"@,
        "/usr/share/fonts/TTF/DejaVuSansMono.ttf"@,
    ]
}

/// Font files for numeric read-outs and paths, the most preferred first.
pub fn mono() -> (r: Vec<&'static str>)
    ensures
        r@.len() == mono_paths().len(),
        forall|k: int| 0 <= k < r@.len() ==> r@[k]@ == #[trigger] mono_paths()[k],
{
    vec![
        "C:/Windows/Fonts/CascadiaMono.ttf",
        "C:/Windows/Fonts/CascadiaCode.ttf",
        "C:/Windows/Fonts/consola.ttf",
        "/System/Library/Fonts/SFNSMono.ttf",
        "/System/Library/Fonts/Menlo.ttc",
        "/usr/share/fonts/truetype/noto/NotoSansMono-Regular.ttf",
        "/usr/share/fonts/truetype/liberation/LiberationMono-Regular.ttf",
        "/usr/share/fonts/truetype/dejavu/DejaVuSansMono.ttf",
        "/usr/share/fonts/noto/NotoSansMono-Regular.ttf",
        "/usr/share/fonts/TTF/DejaVuSansMono.ttf",
    ]
}

// ---------------------------------------------------------------------------
// Laws
// ---------------------------------------------------------------------------

/// A path that starts with a drive is absolute.
proof fn lemma_drive(path: Seq<char>)
    requires
        path.len() >= 3,
        path[1] == ':',
        path[2] == '/',
    ensures
        absolute(path),
{
    reveal_strlit(":/");
    assert(path.subrange(1, 3) =~= ":/"@);
    assert(text::found_at(path, ":/"@, 1));
}

proof fn lemma_sans_paths()
    ensures
        forall|k: int| 0 <= k < sans_paths().len() ==> absolute(#[trigger] sans_paths()[k]),
{
    reveal_strlit("C:/Windows/Fonts/segoeui.ttf");
    lemma_drive("C:/Windows/Fonts/segoeui.ttf"@);
    reveal_strlit("/System/Library/Fonts/SFNS.ttf");
    reveal_strlit("/System/Library/Fonts/SFNSText.ttf");
    reveal_strlit("/System/Library/Fonts/Helvetica.ttc");
    reveal_strlit("/usr/share/fonts/truetype/noto/NotoSans-Regular.ttf");
    reveal_strlit("/usr/share/fonts/truetype/liberation/LiberationSans-Regular.ttf");
    reveal_strlit("/usr/share/fonts/truetype/dejavu/DejaVuSans.ttf");
    reveal_strlit("/usr/share/fonts/noto/NotoSans-Regular.ttf");
    reveal_strlit("/usr/share/fonts/liberation-sans/LiberationSans-Regular.ttf");
    reveal_strlit("/usr/share/fonts/TTF/DejaVuSans.ttf");
    assert(absolute(sans_paths()[0]));
    assert(absolute(sans_paths()[1]));
    assert(absolute(sans_paths()[2]));
    assert(absolute(sans_paths()[3]));
    assert(absolute(sans_paths()[4]));
    assert(absolute(sans_paths()[5]));
    assert(absolute(sans_paths()[6]));
    assert(absolute(sans_paths()[7]));
    assert(absolute(sans_paths()[8]));
    assert(absolute(sans_paths()[9]));
}

proof fn lemma_sans_bold_paths()
    ensures
        forall|k: int| 0 <= k < sans_bold_paths().len() ==> absolute(#[trigger] sans_bold_paths()[k]),
{
    reveal_strlit("C:/Windows/Fonts/seguisb.ttf");
    lemma_drive("C:/Windows/Fonts/seguisb.ttf"@);
    reveal_strlit("/System/Library/Fonts/Supplemental/Arial Bold.ttf");
    reveal_strlit("/Library/Fonts/Arial Bold.ttf");
    reveal_strlit("/usr/share/fonts/truetype/noto/NotoSans-Bold.ttf");
    reveal_strlit("/usr/share/fonts/truetype/liberation/LiberationSans-Bold.ttf");
    reveal_strlit("/usr/share/fonts/truetype/dejavu/DejaVuSans-Bold.ttf");
    reveal_strlit("/usr/share/fonts/noto/NotoSans-Bold.ttf");
    reveal_strlit("/usr/share/fonts/liberation-sans/LiberationSans-Bold.ttf");
    reveal_strlit("/usr/share/fonts/TTF/DejaVuSans-Bold.ttf");
    assert(absolute(sans_bold_paths()[0]));
    assert(absolute(sans_bold_paths()[1]));
    assert(absolute(sans_bold_paths()[2]));
    assert(absolute(sans_bold_paths()[3]));
    assert(absolute(sans_bold_paths()[4]));
    assert(absolute(sans_bold_paths()[5]));
    assert(absolute(sans_bold_paths()[6]));
    assert(absolute(sans_bold_paths()[7]));
    assert(absolute(sans_bold_paths()[8]));
}

proof fn lemma_mono_paths()
    ensures
        forall|k: int| 0 <= k < mono_paths().len() ==> absolute(#[trigger] mono_paths()[k]),
{
    reveal_strlit("C:/Windows/Fonts/CascadiaMono.ttf");
    lemma_drive("C:/Windows/Fonts/CascadiaMono.ttf"@);
    reveal_strlit("C:/Windows/Fonts/CascadiaCode.ttf");
    lemma_drive("C:/Windows/Fonts/CascadiaCode.ttf"@);
    reveal_strlit("C:/Windows/Fonts/consola.ttf");
    lemma_drive("C:/Windows/Fonts/consola.ttf"@);
    reveal_strlit("/System/Library/Fonts/SFNSMono.ttf");
    reveal_strlit("/System/Library/Fonts/Menlo.ttc");
    reveal_strlit("/usr/share/fonts/truetype/noto/NotoSansMono-Regular.ttf");
    reveal_strlit("/usr/share/fonts/truetype/liberation/LiberationMono-Regular.ttf");
    reveal_strlit("/usr/share/fonts/truetype/dejavu/DejaVuSansMono.ttf");
    reveal_strlit("/usr/share/fonts/noto/NotoSansMono-Regular.ttf");
    reveal_strlit("/usr/share/fonts/TTF/DejaVuSansMono.ttf");
    assert(absolute(mono_paths()[0]));
    assert(absolute(mono_paths()[1]));
    assert(absolute(mono_paths()[2]));
    assert(absolute(mono_paths()[3]));
    assert(absolute(mono_paths()[4]));
    assert(absolute(mono_paths()[5]));
    assert(absolute(mono_paths()[6]));
    assert(absolute(mono_paths()[7]));
    assert(absolute(mono_paths()[8]));
    assert(absolute(mono_paths()[9]));
}

/// Every font candidate is an absolute path, and there is one for each purpose.
pub proof fn every_font_candidate_is_absolute(k: int)
    ensures
        sans_paths().len() > 0 && sans_bold_paths().len() > 0 && mono_paths().len() > 0,
        0 <= k < sans_paths().len() ==> absolute(sans_paths()[k]),
        0 <= k < sans_bold_paths().len() ==> absolute(sans_bold_paths()[k]),
        0 <= k < mono_paths().len() ==> absolute(mono_paths()[k]),
{
    lemma_sans_paths();
    lemma_sans_bold_paths();
    lemma_mono_paths();
}

} // verus!
