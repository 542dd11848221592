//! Paths, as the sequence of their components.
//!
//! Names are bytes, so a name that is not text keeps its identity.

use vstd::prelude::*;

use crate::text;
use crate::types::OutputFormat;

verus! {

/// One component of a path.
#[derive(Debug, PartialEq, Eq)]
pub enum Part {
    /// A drive or a share, where paths have them.
    Prefix(Vec<u8>),
    /// The root directory.
    Root,
    /// The current directory; only ever in front.
    CurDir,
    /// The parent directory.
    ParentDir,
    /// A name.
    Normal(Vec<u8>),
}

/// What a [`Part`] stands for.
pub enum PartModel {
    Prefix(Seq<u8>),
    Root,
    CurDir,
    ParentDir,
    Normal(Seq<u8>),
}

impl View for Part {
    type V = PartModel;

    open spec fn view(&self) -> PartModel {
        match self {
            Part::Prefix(n) => PartModel::Prefix(n@),
            Part::Root => PartModel::Root,
            Part::CurDir => PartModel::CurDir,
            Part::ParentDir => PartModel::ParentDir,
            Part::Normal(n) => PartModel::Normal(n@),
        }
    }
}

/// A path.
#[derive(Debug, PartialEq, Eq)]
pub struct FilePath {
    pub parts: Vec<Part>,
}

impl View for FilePath {
    type V = Seq<PartModel>;

    open spec fn view(&self) -> Seq<PartModel> {
        self.parts@.map_values(|p: Part| p@)
    }
}

/// Why a path has no place in the output tree.
#[derive(Clone, Copy, PartialEq, Eq, Debug, Structural)]
pub enum PathError {
    /// The file is not under the folder that it should be under.
    OutsideBase,
}

impl PathError {
    /// The error in words.
    pub fn message(self) -> (r: &'static str)
        ensures
            r@ == "prefix not found"@,
    {
        "prefix not found"
    }
}

// ---------------------------------------------------------------------------
// Names
// ---------------------------------------------------------------------------

/// The bytes of an ASCII text.
pub open spec fn ascii_bytes(t: Seq<char>) -> Seq<u8> {
    t.map_values(|c: char| (c as u32) as u8)
}

/// Where the last dot stands in a name.
pub open spec fn last_dot(name: Seq<u8>) -> Option<nat>
    decreases name.len(),
{
    if name.len() == 0 {
        None
    } else if name.last() == 46 {
        Some((name.len() - 1) as nat)
    } else {
        last_dot(name.drop_last())
    }
}

/// The name has an extension: a dot that is not its first byte.
pub open spec fn has_extension(name: Seq<u8>) -> bool {
    last_dot(name) is Some && last_dot(name)->0 > 0
}

/// The name up to its last dot; all of it if that dot comes first or there is none.
pub open spec fn stem(name: Seq<u8>) -> Seq<u8> {
    if has_extension(name) {
        name.take(last_dot(name)->0 as int)
    } else {
        name
    }
}

/// What stands behind the last dot of the name, unless that dot comes first or there is none.
pub open spec fn extension(name: Seq<u8>) -> Option<Seq<u8>> {
    if has_extension(name) {
        Some(name.skip(last_dot(name)->0 as int + 1))
    } else {
        None
    }
}

/// The name that a path ends in.
pub open spec fn file_name(p: Seq<PartModel>) -> Option<Seq<u8>> {
    if p.len() > 0 {
        match p.last() {
            PartModel::Normal(n) => Some(n),
            _ => None,
        }
    } else {
        None
    }
}

/// What a path ends in, without its last component.
pub open spec fn directory(p: Seq<PartModel>) -> Seq<PartModel> {
    if file_name(p) is Some {
        p.drop_last()
    } else {
        p
    }
}

/// The path with the extension of its file name replaced; a path without a file name stays.
pub open spec fn with_extension(p: Seq<PartModel>, e: Seq<u8>) -> Seq<PartModel> {
    match file_name(p) {
        Some(n) => p.drop_last().push(PartModel::Normal(stem(n) + seq![46u8] + e)),
        None => p,
    }
}

/// `rest` taken as a path below `base`; a path from a root replaces `base` instead.
pub open spec fn joined(base: Seq<PartModel>, rest: Seq<PartModel>) -> Seq<PartModel> {
    if rest.len() > 0 && rest[0] is Prefix {
        rest
    } else if rest.len() > 0 && rest[0] is Root {
        if base.len() > 0 && base[0] is Prefix {
            seq![base[0]] + rest
        } else {
            rest
        }
    } else if rest.len() > 0 && rest[0] is CurDir && base.len() > 0 {
        base + rest.skip(1)
    } else {
        base + rest
    }
}

/// `p` is `base` or lies below it.
pub open spec fn under(p: Seq<PartModel>, base: Seq<PartModel>) -> bool {
    base.len() <= p.len() && p.take(base.len() as int) == base
}

/// Where the processed version of `input` is written: its place below `input_base`, taken below
/// `output_base`, with the extension of the format.
pub open spec fn output_place(
    input: Seq<PartModel>,
    input_base: Seq<PartModel>,
    output_base: Seq<PartModel>,
    format: OutputFormat,
) -> Seq<PartModel> {
    with_extension(
        joined(output_base, input.skip(input_base.len() as int)),
        ascii_bytes(format.extension_text()),
    )
}

/// The name under which the encoder writes before the result is put in place.
pub open spec fn scratch_name(name: Option<Seq<u8>>) -> Seq<u8> {
    match name {
        Some(n) => stem(n) + ascii_bytes(".vocan-partial."@) + (match extension(n) {
            Some(e) => e,
            None => Seq::empty(),
        }),
        None => ascii_bytes(".vocan-partial."@),
    }
}

/// The extensions of the files that are taken for audio.
pub open spec fn audio_extensions() -> Seq<Seq<char>> {
    seq![
        "wav"@,
        "wave"@,
        "mp3"@,
        "flac"@,
        "aiff"@,
        "aif"@,
        "ogg"@,
        "opus"@,
        "m4a"@,
        "aac"@,
        "wma"@,
        "mp2"@,
        "ac3"@,
        "dts"@,
        "mka"@,
    ]
}

/// The bytes are ASCII, and spell `t` when letters are taken in lower case.
pub open spec fn spells(b: Seq<u8>, t: Seq<char>) -> bool {
    &&& forall|i: int| 0 <= i < b.len() ==> b[i] < 128
    &&& text::lowered(b.map_values(|x: u8| x as char)) == t
}

/// The file is taken for audio.
pub open spec fn audio_name(p: Seq<PartModel>) -> bool {
    match file_name(p) {
        Some(n) => match extension(n) {
            Some(e) => exists|k: int|
                0 <= k < audio_extensions().len() && spells(e, #[trigger] audio_extensions()[k]),
            None => false,
        },
        None => false,
    }
}

// ---------------------------------------------------------------------------
// Working with paths
// ---------------------------------------------------------------------------

fn copy_bytes(b: &Vec<u8>, from: usize, to: usize) -> (r: Vec<u8>)
    requires
        from <= to <= b@.len(),
    ensures
        r@ == b@.subrange(from as int, to as int),
{
    let mut r: Vec<u8> = Vec::new();
    for i in from..to
        invariant
            from <= to <= b@.len(),
            r@ == b@.subrange(from as int, i as int),
    {
        r.push(b[i]);
        assert(b@.subrange(from as int, i as int + 1) == b@.subrange(from as int, i as int).push(
            b[i as int],
        ));
    }
    r
}

fn append_ascii(b: &mut Vec<u8>, t: &str)
    ensures
        final(b)@ == old(b)@ + ascii_bytes(t@),
{
    let chars: Vec<char> = text::chars_of(t);
    for i in 0..chars.len()
        invariant
            chars@ == t@,
            b@ == old(b)@ + ascii_bytes(t@.take(i as int)),
    {
        let ghost before: Seq<u8> = b@;
        b.push((chars[i] as u32) as u8);
        assert(ascii_bytes(t@.take(i as int + 1)) == ascii_bytes(t@.take(i as int)).push(
            (t@[i as int] as u32) as u8,
        ));
        assert(b@ == old(b)@ + ascii_bytes(t@.take(i as int + 1)));
    }
    assert(t@.take(t@.len() as int) == t@);
}

fn find_dot(name: &Vec<u8>) -> (r: Option<usize>)
    ensures
        match r {
            Some(i) => i < name@.len() && last_dot(name@) == Some(i as nat),
            None => last_dot(name@) is None,
        },
{
    let mut n: usize = name.len();
    assert(name@.take(n as int) == name@);
    while n > 0
        invariant
            n <= name@.len(),
            last_dot(name@.take(n as int)) == last_dot(name@),
        decreases n,
    {
        if name[n - 1] == 46 {
            return Some(n - 1);
        }
        assert(name@.take(n as int).drop_last() == name@.take(n - 1));
        n = n - 1;
    }
    None
}

/// The end of the stem, and the start of the extension if there is one.
fn split_name(name: &Vec<u8>) -> (r: (usize, Option<usize>))
    ensures
        r.0 <= name@.len(),
        name@.take(r.0 as int) == stem(name@),
        match r.1 {
            Some(i) => i <= name@.len() && extension(name@) == Some(name@.skip(i as int)),
            None => extension(name@) is None,
        },
{
    let n: usize = name.len();
    assert(name@.take(n as int) == name@);
    match find_dot(name) {
        Some(i) => if i > 0 {
            (i, Some(i + 1))
        } else {
            (n, None)
        },
        None => (n, None),
    }
}

fn copy_part(p: &Part) -> (r: Part)
    ensures
        r@ == p@,
{
    match p {
        Part::Prefix(n) => {
            let m: Vec<u8> = copy_bytes(n, 0, n.len());
            assert(m@ == n@);
            Part::Prefix(m)
        },
        Part::Root => Part::Root,
        Part::CurDir => Part::CurDir,
        Part::ParentDir => Part::ParentDir,
        Part::Normal(n) => {
            let m: Vec<u8> = copy_bytes(n, 0, n.len());
            assert(m@ == n@);
            Part::Normal(m)
        },
    }
}

fn same_bytes(a: &Vec<u8>, b: &Vec<u8>) -> (r: bool)
    ensures
        r == (a@ == b@),
{
    if a.len() != b.len() {
        return false;
    }
    for i in 0..a.len()
        invariant
            a@.len() == b@.len(),
            forall|j: int| 0 <= j < i ==> a@[j] == b@[j],
    {
        if a[i] != b[i] {
            return false;
        }
    }
    assert(a@ == b@);
    true
}

fn same_part(a: &Part, b: &Part) -> (r: bool)
    ensures
        r == (a@ == b@),
{
    match (a, b) {
        (Part::Prefix(x), Part::Prefix(y)) => same_bytes(x, y),
        (Part::Normal(x), Part::Normal(y)) => same_bytes(x, y),
        (Part::Root, Part::Root) => true,
        (Part::CurDir, Part::CurDir) => true,
        (Part::ParentDir, Part::ParentDir) => true,
        _ => false,
    }
}

/// Appends copies of `p.parts[from..to]`.
fn append_parts(out: &mut Vec<Part>, p: &FilePath, from: usize, to: usize)
    requires
        from <= to <= p.parts@.len(),
    ensures
        final(out)@.map_values(|q: Part| q@) == old(out)@.map_values(|q: Part| q@) + p@.subrange(
            from as int,
            to as int,
        ),
{
    let ghost start: Seq<PartModel> = out@.map_values(|q: Part| q@);
    assert(start + p@.subrange(from as int, from as int) == start);
    for i in from..to
        invariant
            from <= to <= p.parts@.len(),
            start == old(out)@.map_values(|q: Part| q@),
            out@.map_values(|q: Part| q@) == start + p@.subrange(from as int, i as int),
    {
        let ghost before: Seq<Part> = out@;
        let c: Part = copy_part(&p.parts[i]);
        out.push(c);
        assert(out@.map_values(|q: Part| q@) == before.map_values(|q: Part| q@).push(c@));
        assert(p@.subrange(from as int, i as int + 1) == p@.subrange(from as int, i as int).push(
            p@[i as int],
        ));
        assert(out@.map_values(|q: Part| q@) == start + p@.subrange(from as int, i as int + 1));
    }
}

impl FilePath {
    /// Whether the path is `base` or lies below it.
    pub fn starts_with(&self, base: &FilePath) -> (r: bool)
        ensures
            r == under(self@, base@),
    {
        if base.parts.len() > self.parts.len() {
            return false;
        }
        for i in 0..base.parts.len()
            invariant
                base.parts@.len() <= self.parts@.len(),
                forall|j: int| 0 <= j < i ==> self@[j] == base@[j],
        {
            if !same_part(&self.parts[i], &base.parts[i]) {
                assert(self@[i as int] != base@[i as int]);
                assert(self@.take(base@.len() as int)[i as int] == self@[i as int]);
                return false;
            }
            assert(self@[i as int] == base@[i as int]);
        }
        assert(self@.take(base@.len() as int) == base@);
        true
    }

    fn with_extension(&mut self, e: &str)
        ensures
            final(self)@ == with_extension(old(self)@, ascii_bytes(e@)),
    {
        let n: usize = self.parts.len();
        if n == 0 {
            return ;
        }
        let name: Vec<u8> = match &self.parts[n - 1] {
            Part::Normal(name) => {
                assert(self@.last() == PartModel::Normal(name@));
                let (end, _): (usize, Option<usize>) = split_name(name);
                let mut b: Vec<u8> = copy_bytes(name, 0, end);
                assert(b@ == name@.take(end as int));
                b.push(46);
                append_ascii(&mut b, e);
                assert(b@ == stem(name@) + seq![46u8] + ascii_bytes(e@));
                b
            },
            _ => {
                assert(file_name(self@) is None);
                return ;
            },
        };
        let ghost before: Seq<PartModel> = self@;
        let ghost m: Seq<u8> = name@;
        let _ = self.parts.pop();
        self.parts.push(Part::Normal(name));
        assert(self@ == before.drop_last().push(PartModel::Normal(m)));
    }
}

/// Where the processed version of `input` will be written.
pub fn output_path_for(
    input: &FilePath,
    input_base: &FilePath,
    output_base: &FilePath,
    format: OutputFormat,
) -> (r: Result<FilePath, PathError>)
    ensures
        match r {
            Ok(p) => under(input@, input_base@) && p@ == output_place(
                input@,
                input_base@,
                output_base@,
                format,
            ),
            Err(e) => !under(input@, input_base@) && e == PathError::OutsideBase,
        },
{
    if !input.starts_with(input_base) {
        return Err(PathError::OutsideBase);
    }
    let from: usize = input_base.parts.len();
    let to: usize = input.parts.len();
    let base_len: usize = output_base.parts.len();
    let ghost rest: Seq<PartModel> = input@.skip(from as int);
    let mut parts: Vec<Part> = Vec::new();
    assert(parts@.map_values(|q: Part| q@) == Seq::<PartModel>::empty());
    let mut skip: usize = 0;
    if from < to {
        assert(rest[0] == input.parts@[from as int]@);
        match &input.parts[from] {
            Part::Prefix(_) => {},
            Part::Root => {
                if base_len > 0 {
                    assert(output_base@[0] == output_base.parts@[0]@);
                    match &output_base.parts[0] {
                        Part::Prefix(_) => {
                            append_parts(&mut parts, output_base, 0, 1);
                            assert(output_base@.subrange(0, 1) == seq![output_base@[0]]);
                        },
                        _ => {},
                    }
                }
            },
            Part::CurDir => {
                append_parts(&mut parts, output_base, 0, base_len);
                assert(output_base@.subrange(0, base_len as int) == output_base@);
                if base_len > 0 {
                    skip = 1;
                }
            },
            _ => {
                append_parts(&mut parts, output_base, 0, base_len);
                assert(output_base@.subrange(0, base_len as int) == output_base@);
            },
        }
    } else {
        append_parts(&mut parts, output_base, 0, base_len);
        assert(output_base@.subrange(0, base_len as int) == output_base@);
    }
    append_parts(&mut parts, input, from + skip, to);
    let mut out: FilePath = FilePath { parts };
    proof {
        assert(input@.subrange(from as int, to as int) == rest);
        if skip == 1 {
            assert(input@.subrange(from + 1, to as int) == rest.skip(1));
        }
        assert(out@ == joined(output_base@, rest));
    }
    out.with_extension(format.extension());
    Ok(out)
}

/// The scratch name that the encoder writes to, beside the output and with its extension.
pub fn partial_path(output: &FilePath) -> (r: FilePath)
    ensures
        r@ == scratch_path(output@),
{
    let n: usize = output.parts.len();
    let mut name: Vec<u8> = Vec::new();
    let mut keep: usize = n;
    if n > 0 {
        assert(output@.last() == output.parts@[n - 1]@);
        match &output.parts[n - 1] {
            Part::Normal(f) => {
                let (end, ext): (usize, Option<usize>) = split_name(f);
                let mut b: Vec<u8> = copy_bytes(f, 0, end);
                assert(b@ == stem(f@));
                append_ascii(&mut b, ".vocan-partial.");
                match ext {
                    Some(i) => {
                        let mut e: Vec<u8> = copy_bytes(f, i, f.len());
                        assert(e@ == f@.skip(i as int));
                        b.append(&mut e);
                    },
                    None => {},
                }
                assert(b@ == scratch_name(Some(f@)));
                name = b;
                keep = n - 1;
            },
            _ => {
                append_ascii(&mut name, ".vocan-partial.");
                assert(name@ == ascii_bytes(".vocan-partial."@));
            },
        }
    } else {
        append_ascii(&mut name, ".vocan-partial.");
        assert(name@ == ascii_bytes(".vocan-partial."@));
    }
    let mut parts: Vec<Part> = Vec::new();
    assert(parts@.map_values(|q: Part| q@) == Seq::<PartModel>::empty());
    append_parts(&mut parts, output, 0, keep);
    assert(output@.subrange(0, keep as int) == directory(output@));
    let ghost before: Seq<Part> = parts@;
    parts.push(Part::Normal(name));
    let r: FilePath = FilePath { parts };
    assert(r@ == before.map_values(|q: Part| q@).push(PartModel::Normal(name@)));
    r
}

/// What a path lies in: itself without its last component, unless that is a root.
pub open spec fn parent(p: Seq<PartModel>) -> Option<Seq<PartModel>> {
    if p.len() == 0 || p.last() is Root || p.last() is Prefix {
        None
    } else {
        Some(p.drop_last())
    }
}

/// Where a tool is looked for: beside FFmpeg if that is given with its folder, else beside the
/// application, if that is known.
pub open spec fn tool_place(
    ffmpeg: Seq<PartModel>,
    exe: Option<Seq<PartModel>>,
    name: Seq<char>,
) -> Option<Seq<PartModel>> {
    let tool = PartModel::Normal(ascii_bytes(name));
    if parent(ffmpeg) is Some && parent(ffmpeg)->0.len() > 0 {
        Some(parent(ffmpeg)->0.push(tool))
    } else if exe is Some && parent(exe->0) is Some {
        Some(parent(exe->0)->0.push(tool))
    } else {
        None
    }
}

fn beside(p: &FilePath, name: &str) -> (r: Option<FilePath>)
    ensures
        match r {
            Some(t) => parent(p@) is Some && t@ == parent(p@)->0.push(
                PartModel::Normal(ascii_bytes(name@)),
            ),
            None => parent(p@) is None,
        },
{
    let n: usize = p.parts.len();
    if n == 0 {
        return None;
    }
    assert(p@.last() == p.parts@[n - 1]@);
    match &p.parts[n - 1] {
        Part::Root | Part::Prefix(_) => {
            return None;
        },
        _ => {},
    }
    let mut b: Vec<u8> = Vec::new();
    append_ascii(&mut b, name);
    assert(b@ =~= ascii_bytes(name@));
    let mut parts: Vec<Part> = Vec::new();
    assert(parts@.map_values(|q: Part| q@) =~= Seq::<PartModel>::empty());
    append_parts(&mut parts, p, 0, n - 1);
    assert(p@.subrange(0, n - 1) =~= p@.drop_last());
    let ghost before: Seq<Part> = parts@;
    parts.push(Part::Normal(b));
    let t: FilePath = FilePath { parts };
    assert(t@ =~= before.map_values(|q: Part| q@).push(PartModel::Normal(b@)));
    Some(t)
}

/// Where a tool is looked for: beside FFmpeg if that is given with its folder, else beside the
/// application.
pub fn tool_beside(ffmpeg: &FilePath, exe: Option<&FilePath>, name: &str) -> (r: Option<FilePath>)
    ensures
        match r {
            Some(t) => tool_place(
                ffmpeg@,
                match exe {
                    Some(e) => Some(e@),
                    None => None,
                },
                name@,
            ) == Some(t@),
            None => tool_place(
                ffmpeg@,
                match exe {
                    Some(e) => Some(e@),
                    None => None,
                },
                name@,
            ) is None,
        },
{
    if ffmpeg.parts.len() > 1 {
        let t: Option<FilePath> = beside(ffmpeg, name);
        if t.is_some() {
            return t;
        }
    }
    match exe {
        Some(e) => beside(e, name),
        None => None,
    }
}

fn is_listed(e: &str) -> (r: bool)
    ensures
        r == exists|k: int|
            0 <= k < audio_extensions().len() && e@ == #[trigger] audio_extensions()[k],
{
    let listed: [&str; 15] = [
        "wav",
        "wave",
        "mp3",
        "flac",
        "aiff",
        "aif",
        "ogg",
        "opus",
        "m4a",
        "aac",
        "wma",
        "mp2",
        "ac3",
        "dts",
        "mka",
    ];
    assert(forall|k: int| 0 <= k < 15 ==> listed@[k]@ == #[trigger] audio_extensions()[k]);
    let mut i: usize = 0;
    while i < 15
        invariant
            i <= 15,
            forall|k: int| 0 <= k < 15 ==> listed@[k]@ == #[trigger] audio_extensions()[k],
            forall|k: int| 0 <= k < i ==> e@ != #[trigger] audio_extensions()[k],
        decreases 15 - i,
    {
        assert(listed@[i as int]@ == audio_extensions()[i as int]);
        if text::same(e, listed[i]) {
            return true;
        }
        i = i + 1;
    }
    false
}

/// Whether the file has the extension of a format that FFmpeg can decode as audio.
pub fn is_audio_file(path: &FilePath) -> (r: bool)
    ensures
        r == audio_name(path@),
{
    let n: usize = path.parts.len();
    if n == 0 {
        return false;
    }
    assert(path@.last() == path.parts@[n - 1]@);
    match &path.parts[n - 1] {
        Part::Normal(name) => {
            let (_, ext): (usize, Option<usize>) = split_name(name);
            match ext {
                Some(from) => {
                    let ghost e: Seq<u8> = name@.skip(from as int);
                    let mut chars: Vec<char> = Vec::new();
                    for i in from..name.len()
                        invariant
                            from <= i <= name@.len(),
                            e == name@.skip(from as int),
                            file_name(path@) == Some(name@),
                            extension(name@) == Some(e),
                            forall|j: int| 0 <= j < i - from ==> e[j] < 128,
                            chars@ == e.take(i - from).map_values(|x: u8| x as char),
                    {
                        let b: u8 = name[i];
                        assert(e[i - from] == b);
                        if b >= 128 {
                            assert(forall|k: int|
                                0 <= k < audio_extensions().len() ==> !spells(
                                    e,
                                    #[trigger] audio_extensions()[k],
                                ));
                            return false;
                        }
                        chars.push(b as char);
                        assert(e.take(i - from + 1) == e.take(i - from).push(b));
                        assert(e.take(i - from).push(b).map_values(|x: u8| x as char) == e.take(
                            i - from,
                        ).map_values(|x: u8| x as char).push(b as char));
                    }
                    assert(e.take(e.len() as int) == e);
                    let low: String = text::lowered_from(chars.as_slice(), 0);
                    assert(chars@.skip(0) == chars@);
                    let r: bool = is_listed(low.as_str());
                    assert(forall|k: int|
                        0 <= k < audio_extensions().len() ==> (spells(
                            e,
                            #[trigger] audio_extensions()[k],
                        ) <==> low@ == audio_extensions()[k]));
                    r
                },
                None => false,
            }
        },
        _ => false,
    }
}

// ---------------------------------------------------------------------------
// Laws
// ---------------------------------------------------------------------------

/// Two sources in one folder whose names differ only in the extension are written to one file.
pub proof fn sources_that_differ_in_extension_collide(
    folder: Seq<PartModel>,
    a: Seq<u8>,
    b: Seq<u8>,
    input_base: Seq<PartModel>,
    output_base: Seq<PartModel>,
    format: OutputFormat,
)
    requires
        stem(a) == stem(b),
        under(folder, input_base),
    ensures
        output_place(folder.push(PartModel::Normal(a)), input_base, output_base, format)
            == output_place(folder.push(PartModel::Normal(b)), input_base, output_base, format),
{
    let k: int = input_base.len() as int;
    let pa: Seq<PartModel> = folder.push(PartModel::Normal(a));
    let pb: Seq<PartModel> = folder.push(PartModel::Normal(b));
    let rest: Seq<PartModel> = folder.skip(k);
    assert(pa.skip(k) == rest.push(PartModel::Normal(a)));
    assert(pb.skip(k) == rest.push(PartModel::Normal(b)));
    let ja: Seq<PartModel> = joined(output_base, pa.skip(k));
    let jb: Seq<PartModel> = joined(output_base, pb.skip(k));
    lemma_joined_last(output_base, rest, PartModel::Normal(a));
    lemma_joined_last(output_base, rest, PartModel::Normal(b));
    assert(ja.drop_last() == jb.drop_last());
}

/// Joining keeps the last component last, and treats what is before it alike.
proof fn lemma_joined_last(base: Seq<PartModel>, rest: Seq<PartModel>, last: PartModel)
    requires
        last is Normal,
    ensures
        joined(base, rest.push(last)) == joined(base, rest).push(last) || rest.len() == 0,
        joined(base, rest.push(last)).len() > 0,
        joined(base, rest.push(last)).last() == last,
        rest.len() == 0 ==> joined(base, rest.push(last)) == base.push(last),
{
    let r: Seq<PartModel> = rest.push(last);
    if rest.len() > 0 {
        assert(r[0] == rest[0]);
        assert(r.skip(1) == rest.skip(1).push(last));
        assert(joined(base, r) == joined(base, rest).push(last));
    } else {
        assert(base + r == base.push(last));
    }
}

/// A file below the source folder is written below the output folder, at the same place but for
/// its extension.
pub proof fn the_input_tree_is_mirrored(
    folders: Seq<PartModel>,
    name: Seq<u8>,
    input_base: Seq<PartModel>,
    output_base: Seq<PartModel>,
    format: OutputFormat,
)
    requires
        forall|i: int| 0 <= i < folders.len() ==> folders[i] is Normal,
    ensures
        output_place(
            input_base + folders.push(PartModel::Normal(name)),
            input_base,
            output_base,
            format,
        ) == (output_base + folders).push(
            PartModel::Normal(stem(name) + seq![46u8] + ascii_bytes(format.extension_text())),
        ),
{
    let rest: Seq<PartModel> = folders.push(PartModel::Normal(name));
    let input: Seq<PartModel> = input_base + rest;
    assert(input.skip(input_base.len() as int) == rest);
    assert(rest[0] is Normal);
    let j: Seq<PartModel> = joined(output_base, rest);
    assert(j == output_base + rest);
    assert(j.last() == PartModel::Normal(name));
    assert(j.drop_last() == output_base + folders);
}

/// The scratch file stands in the folder of the output, has its extension, and is another file.
pub proof fn the_scratch_file_is_a_sibling(output: Seq<PartModel>)
    requires
        file_name(output) is Some,
    ensures
        ({
            let name = file_name(output)->0;
            let scratch = directory(output).push(PartModel::Normal(scratch_name(Some(name))));
            &&& directory(scratch) == directory(output)
            &&& extension(name) is Some ==> extension(scratch_name(Some(name))) == extension(name)
            &&& scratch != output
        }),
{
    let name: Seq<u8> = file_name(output)->0;
    let made: Seq<u8> = scratch_name(Some(name));
    let scratch: Seq<PartModel> = directory(output).push(PartModel::Normal(made));
    assert(scratch.drop_last() == directory(output));
    lemma_last_dot(name);
    reveal_strlit(".vocan-partial.");
    let mid: Seq<u8> = ascii_bytes(".vocan-partial."@);
    assert(mid.len() == 15);
    if has_extension(name) {
        let d: int = last_dot(name)->0 as int;
        let e: Seq<u8> = name.skip(d + 1);
        assert(made == name.take(d) + mid + e);
        assert(mid[14] == 46);
        assert forall|i: int| d + 15 <= i < made.len() implies made[i] != 46 by {
            assert(made[i] == name[i - 14]);
        }
        assert(made[d + 14] == 46);
        lemma_last_dot_is(made, d + 14);
        assert(made.skip(d + 15) == e);
        assert(made.len() > name.len());
    } else {
        assert(made.len() > name.len());
    }
    assert(scratch.last() != output.last());
}

/// Where the encoder writes before the result is put in place.
pub open spec fn scratch_path(output: Seq<PartModel>) -> Seq<PartModel> {
    directory(output).push(PartModel::Normal(scratch_name(file_name(output))))
}

/// The last dot of a scratch name is the one that was put in.
proof fn lemma_scratch_dot(name: Seq<u8>)
    ensures
        ({
            let made = scratch_name(Some(name));
            let d = stem(name).len();
            &&& last_dot(made) == Some((d + 14) as nat)
            &&& made.take(d as int) == stem(name)
            &&& made.skip(d as int + 15) == match extension(name) {
                Some(e) => e,
                None => Seq::empty(),
            }
        }),
{
    let made: Seq<u8> = scratch_name(Some(name));
    let d: int = stem(name).len() as int;
    reveal_strlit(".vocan-partial.");
    let mid: Seq<u8> = ascii_bytes(".vocan-partial."@);
    assert(mid.len() == 15);
    assert(mid[14] == 46);
    lemma_last_dot(name);
    assert(made[d + 14] == mid[14]);
    assert forall|i: int| d + 14 < i < made.len() implies made[i] != 46 by {
        assert(made[i] == name[i - 14]);
    }
    lemma_last_dot_is(made, d + 14);
    assert(made.take(d) =~= stem(name));
    assert(made.skip(d + 15) =~= match extension(name) {
        Some(e) => e,
        None => Seq::empty(),
    });
}

/// `b` is `a`, whose name has no extension, with a dot at the end.
pub open spec fn dotted_twin(a: Seq<PartModel>, b: Seq<PartModel>) -> bool {
    &&& directory(a) == directory(b)
    &&& extension(file_name(a)->0) is None
    &&& file_name(b)->0 == file_name(a)->0.push(46u8)
}

/// Two outputs never share a scratch name, unless one is the other, without an extension, with a
/// dot at the end.
pub proof fn outputs_never_share_a_scratch_name(a: Seq<PartModel>, b: Seq<PartModel>)
    requires
        a != b,
        file_name(a) is Some,
        file_name(b) is Some,
        !dotted_twin(a, b),
        !dotted_twin(b, a),
    ensures
        scratch_path(a) != scratch_path(b),
{
    let x: Seq<u8> = file_name(a)->0;
    let y: Seq<u8> = file_name(b)->0;
    if scratch_path(a) == scratch_path(b) {
        assert(scratch_path(a).drop_last() =~= directory(a));
        assert(scratch_path(b).drop_last() =~= directory(b));
        assert(scratch_path(a).last() == scratch_path(b).last());
        lemma_scratch_dot(x);
        lemma_scratch_dot(y);
        lemma_last_dot(x);
        lemma_last_dot(y);
        assert(stem(x) == stem(y));
        if has_extension(x) {
            assert(x =~= stem(x) + seq![46u8] + extension(x)->0);
        }
        if has_extension(y) {
            assert(y =~= stem(y) + seq![46u8] + extension(y)->0);
        }
        if has_extension(x) && !has_extension(y) {
            assert(x =~= y.push(46u8));
        }
        if has_extension(y) && !has_extension(x) {
            assert(y =~= x.push(46u8));
        }
        assert(a =~= directory(a).push(PartModel::Normal(x)));
        assert(b =~= directory(b).push(PartModel::Normal(y)));
    }
}

proof fn lemma_last_dot(s: Seq<u8>)
    ensures
        match last_dot(s) {
            Some(d) => d < s.len() && s[d as int] == 46 && (forall|i: int|
                d < i < s.len() ==> s[i] != 46),
            None => forall|i: int| 0 <= i < s.len() ==> s[i] != 46,
        },
    decreases s.len(),
{
    if s.len() > 0 && s.last() != 46 {
        lemma_last_dot(s.drop_last());
        assert forall|i: int| 0 <= i < s.len() - 1 implies s[i] == s.drop_last()[i] by {}
    }
}

proof fn lemma_last_dot_is(s: Seq<u8>, d: int)
    requires
        0 <= d < s.len(),
        s[d] == 46,
        forall|i: int| d < i < s.len() ==> s[i] != 46,
    ensures
        last_dot(s) == Some(d as nat),
{
    lemma_last_dot(s);
}

} // verus!
