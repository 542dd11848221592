//! Laws of places and streams: names, scratch files, tools, and samples as bytes.

use vstd::arithmetic::power::*;
use vstd::arithmetic::power2::*;
use vstd::prelude::*;

use crate::exact;
use crate::ffmpeg;
use crate::fixed;
use crate::memory;
use crate::paths;
use crate::paths::{FilePath, PartModel, PathError};
use crate::pipeline;
use crate::proc;
use crate::processing;
use crate::processing::EncodeVerdict;
use crate::rounding;
use crate::single;
use crate::single::Single;
use crate::text;
use crate::text_laws;
use crate::types::{OutputFormat, ProcessingOptions, SilencePad, SilenceThreshold};

verus! {

// ---------------------------------------------------------------------------
// Names
// ---------------------------------------------------------------------------

proof fn lemma_last_dot(name: Seq<u8>)
    ensures
        paths::last_dot(name) matches Some(i) ==> i < name.len() && name[i as int] == 46
            && forall|k: int| i < k < name.len() ==> name[k] != 46,
        paths::last_dot(name) is None ==> !name.contains(46),
    decreases name.len(),
{
    if name.len() > 0 {
        let h: Seq<u8> = name.drop_last();
        lemma_last_dot(h);
        if name.last() != 46 {
            match paths::last_dot(h) {
                Some(i) => {
                    assert(h[i as int] == name[i as int]);
                    assert forall|k: int| i < k < name.len() implies name[k] != 46 by {
                        if k < h.len() {
                            assert(h[k] == name[k]);
                        }
                    }
                },
                None => {
                    if name.contains(46) {
                        let k: int = choose|k: int| 0 <= k < name.len() && name[k] == 46;
                        assert(h[k] == 46);
                    }
                },
            }
        }
    }
}

/// A name with an extension is its stem, a dot and the extension, in which no dot is left. A name
/// without one is its own stem, and holds no dot but perhaps its first byte.
pub proof fn a_name_is_its_stem_and_its_extension(name: Seq<u8>)
    ensures
        paths::extension(name) matches Some(e) ==> name == paths::stem(name) + seq![46u8] + e
            && !e.contains(46) && paths::stem(name).len() > 0,
        paths::extension(name) is None ==> paths::stem(name) == name && forall|k: int|
            0 < k < name.len() ==> name[k] != 46,
{
    lemma_last_dot(name);
    match paths::extension(name) {
        Some(e) => {
            let i: int = paths::last_dot(name)->0 as int;
            assert(name =~= name.take(i) + seq![46u8] + name.skip(i + 1));
            if e.contains(46) {
                let k: int = choose|k: int| 0 <= k < e.len() && e[k] == 46;
                assert(name[i + 1 + k] == 46);
            }
        },
        None => {
            if paths::last_dot(name) is None {
                assert forall|k: int| 0 < k < name.len() implies name[k] != 46 by {
                    if name[k] == 46 {
                        assert(name.contains(46));
                    }
                }
            }
        },
    }
}

/// What stands behind the last dot of a name, unless that is its first byte, is its extension.
pub proof fn what_stands_behind_the_last_dot(stem: Seq<u8>, e: Seq<u8>)
    requires
        stem.len() > 0,
        !e.contains(46),
    ensures
        paths::stem(stem + seq![46u8] + e) == stem,
        paths::extension(stem + seq![46u8] + e) == Some(e),
{
    let name: Seq<u8> = stem + seq![46u8] + e;
    lemma_last_dot(name);
    assert(name[stem.len() as int] == 46);
    match paths::last_dot(name) {
        Some(i) => {
            if i > stem.len() {
                assert(e[i - stem.len() - 1] == 46);
                assert(e.contains(46));
            }
            assert(i == stem.len());
            assert(name.take(i as int) =~= stem);
            assert(name.skip(i as int + 1) =~= e);
        },
        None => {
            assert(name.contains(46));
        },
    }
}

/// The byte is the letter, in either case.
pub open spec fn either_case(b: u8, c: char) -> bool {
    b == c as u32 || ('a' <= c <= 'z' && b == c as u32 - 32)
}

/// A file is taken for audio by its extension, written in either case.
pub proof fn audio_is_told_by_the_extension_in_either_case(
    folder: Seq<PartModel>,
    stem: Seq<u8>,
    e: Seq<u8>,
    k: int,
)
    requires
        stem.len() > 0,
        0 <= k < paths::audio_extensions().len(),
        e.len() == paths::audio_extensions()[k].len(),
        forall|i: int|
            0 <= i < e.len() ==> either_case(#[trigger] e[i], paths::audio_extensions()[k][i]),
        forall|i: int|
            0 <= i < e.len() ==> {
                let c = #[trigger] paths::audio_extensions()[k][i];
                ('a' <= c <= 'z') || ('0' <= c <= '9')
            },
    ensures
        paths::audio_name(folder.push(PartModel::Normal(stem + seq![46u8] + e))),
{
    let t: Seq<char> = paths::audio_extensions()[k];
    assert forall|i: int| 0 <= i < e.len() implies e[i] != 46 && e[i] < 128 by {
        assert(either_case(e[i], t[i]));
        let c: char = paths::audio_extensions()[k][i];
    }
    if e.contains(46) {
        let i: int = choose|i: int| 0 <= i < e.len() && e[i] == 46;
        assert(e[i] != 46);
    }
    what_stands_behind_the_last_dot(stem, e);
    let low: Seq<char> = text::lowered(e.map_values(|x: u8| x as char));
    assert forall|i: int| 0 <= i < e.len() implies low[i] == t[i] by {
        assert(either_case(e[i], t[i]));
        let c: char = paths::audio_extensions()[k][i];
        assert(low[i] == text::ascii_lower(e[i] as char));
    }
    assert(low =~= t);
    assert(paths::spells(e, paths::audio_extensions()[k]));
}

/// A name without an extension is never taken for audio, and neither is one whose extension is
/// longer than any that is listed.
pub proof fn other_names_are_not_audio(folder: Seq<PartModel>, name: Seq<u8>)
    requires
        paths::extension(name) is None || paths::extension(name)->0.len() > 4
            || paths::extension(name)->0.len() < 3,
    ensures
        !paths::audio_name(folder.push(PartModel::Normal(name))),
        paths::audio_extensions().len() == 15,
{
    reveal_strlit("wav");
    reveal_strlit("wave");
    reveal_strlit("mp3");
    reveal_strlit("flac");
    reveal_strlit("aiff");
    reveal_strlit("aif");
    reveal_strlit("ogg");
    reveal_strlit("opus");
    reveal_strlit("m4a");
    reveal_strlit("aac");
    reveal_strlit("wma");
    reveal_strlit("mp2");
    reveal_strlit("ac3");
    reveal_strlit("dts");
    reveal_strlit("mka");
    if let Some(e) = paths::extension(name) {
        assert forall|k: int| 0 <= k < 15 implies !paths::spells(
            e,
            #[trigger] paths::audio_extensions()[k],
        ) by {
            let t: Seq<char> = paths::audio_extensions()[k];
            assert(3 <= t.len() <= 4);
            if paths::spells(e, t) {
                assert(text::lowered(e.map_values(|x: u8| x as char)).len() == e.len());
            }
        }
    }
}

/// The extensions that are taken for audio.
pub proof fn what_is_taken_for_audio()
    ensures
        paths::audio_extensions().contains("wav"@),
        paths::audio_extensions().contains("wave"@),
        paths::audio_extensions().contains("mp3"@),
        paths::audio_extensions().contains("flac"@),
        paths::audio_extensions().contains("aiff"@),
        paths::audio_extensions().contains("aif"@),
        paths::audio_extensions().contains("ogg"@),
        paths::audio_extensions().contains("opus"@),
        paths::audio_extensions().contains("m4a"@),
        paths::audio_extensions().contains("aac"@),
        paths::audio_extensions().contains("wma"@),
        paths::audio_extensions().contains("mp2"@),
        paths::audio_extensions().contains("ac3"@),
        paths::audio_extensions().contains("dts"@),
        paths::audio_extensions().contains("mka"@),
{
    let x: Seq<Seq<char>> = paths::audio_extensions();
    assert(x[0] == "wav"@ && x[1] == "wave"@ && x[2] == "mp3"@ && x[3] == "flac"@);
    assert(x[4] == "aiff"@ && x[5] == "aif"@ && x[6] == "ogg"@ && x[7] == "opus"@);
    assert(x[8] == "m4a"@ && x[9] == "aac"@ && x[10] == "wma"@ && x[11] == "mp2"@);
    assert(x[12] == "ac3"@ && x[13] == "dts"@ && x[14] == "mka"@);
}

/// A tool is looked for beside FFmpeg where that is given with its folder, else beside the
/// application, and nowhere where neither is known.
pub proof fn a_tool_is_looked_for_beside_ffmpeg(
    dir: Seq<PartModel>,
    n: Seq<u8>,
    exe_dir: Seq<PartModel>,
    m: Seq<u8>,
    tool: Seq<char>,
)
    ensures
        dir.len() > 0 ==> paths::tool_place(
            dir.push(PartModel::Normal(n)),
            Some(exe_dir.push(PartModel::Normal(m))),
            tool,
        ) == Some(dir.push(PartModel::Normal(paths::ascii_bytes(tool)))),
        paths::tool_place(
            seq![PartModel::Normal(n)],
            Some(exe_dir.push(PartModel::Normal(m))),
            tool,
        ) == Some(exe_dir.push(PartModel::Normal(paths::ascii_bytes(tool)))),
        paths::tool_place(seq![PartModel::Normal(n)], None, tool) is None,
{
    assert(dir.push(PartModel::Normal(n)).drop_last() =~= dir);
    assert(exe_dir.push(PartModel::Normal(m)).drop_last() =~= exe_dir);
    assert(seq![PartModel::Normal(n)].drop_last() =~= Seq::<PartModel>::empty());
}

/// A path below another follows it; one from a root takes its place, on its drive if it has one, and
/// a leading current directory is left out.
pub proof fn how_paths_are_joined(
    base: Seq<PartModel>,
    rest: Seq<PartModel>,
    name: Seq<u8>,
    drive: Seq<u8>,
)
    requires
        base.len() > 0,
        !(base[0] is Prefix),
    ensures
        paths::joined(base, seq![PartModel::Normal(name)] + rest) == base + seq![
            PartModel::Normal(name),
        ] + rest,
        paths::joined(base, seq![PartModel::ParentDir] + rest) == base + seq![PartModel::ParentDir]
            + rest,
        paths::joined(base, seq![PartModel::CurDir] + rest) == base + rest,
        paths::joined(base, seq![PartModel::Root] + rest) == seq![PartModel::Root] + rest,
        paths::joined(
            seq![PartModel::Prefix(drive)] + base,
            seq![PartModel::Root] + rest,
        ) == seq![PartModel::Prefix(drive), PartModel::Root] + rest,
        paths::joined(base, seq![PartModel::Prefix(drive)] + rest) == seq![
            PartModel::Prefix(drive),
        ] + rest,
        paths::joined(base, Seq::empty()) == base,
{
    assert(base + (seq![PartModel::Normal(name)] + rest) =~= base + seq![PartModel::Normal(name)]
        + rest);
    assert(base + (seq![PartModel::ParentDir] + rest) =~= base + seq![PartModel::ParentDir] + rest);
    assert((seq![PartModel::CurDir] + rest).skip(1) =~= rest);
    assert(seq![PartModel::Prefix(drive)] + (seq![PartModel::Root] + rest) =~= seq![
        PartModel::Prefix(drive),
        PartModel::Root,
    ] + rest);
    assert(base + Seq::<PartModel>::empty() =~= base);
}

/// A file is given a place exactly where it lies below the source folder, and then the one that
/// mirrors it.
pub proof fn a_file_below_the_source_is_given_a_place(
    input: &FilePath,
    base: &FilePath,
    output: &FilePath,
    format: OutputFormat,
    r: Result<FilePath, PathError>,
)
    requires
        call_ensures(paths::output_path_for, (input, base, output, format), r),
    ensures
        r is Ok <==> exists|rest: Seq<PartModel>| input@ == #[trigger] (base@ + rest),
        r matches Ok(p) ==> p@ == paths::output_place(input@, base@, output@, format),
{
    if r is Ok {
        let rest: Seq<PartModel> = input@.skip(base@.len() as int);
        assert(input@ =~= base@ + rest);
    }
    if exists|rest: Seq<PartModel>| input@ == #[trigger] (base@ + rest) {
        let rest: Seq<PartModel> = choose|rest: Seq<PartModel>|
            input@ == #[trigger] (base@ + rest);
        assert((base@ + rest).take(base@.len() as int) =~= base@);
    }
}

// ---------------------------------------------------------------------------
// Scratch directories
// ---------------------------------------------------------------------------

/// A directory is swept exactly where it bears the name of a scratch directory, is not the own one,
/// and has not been touched for more than a day, to the nanosecond.
pub proof fn scratch_directories_are_swept_after_a_day(
    rest: Seq<char>,
    own: Seq<char>,
    secs: u64,
    nanos: u32,
)
    requires
        nanos < 1_000_000_000,
    ensures
        ({
            let name = "vocan-scratch-"@ + rest;
            &&& proc::sweepable(name, own, Some((secs, nanos))) <==> name != own && secs
                * 1_000_000_000 + nanos > 86_400 * 1_000_000_000
            &&& !proc::sweepable(name, own, None)
        }),
        rest.len() > 0 && rest[0] != 'v' ==> !proc::sweepable(rest, own, Some((secs, nanos))),
{
    reveal_strlit("vocan-scratch-");
    let p: Seq<char> = "vocan-scratch-"@;
    let name: Seq<char> = p + rest;
    assert(name.take(p.len() as int) =~= p);
    if rest.len() >= p.len() {
        assert(rest.take(p.len() as int)[0] == rest[0]);
    }
}

/// Two instances have two scratch directories.
pub proof fn two_instances_have_two_scratch_directories(a: nat, b: nat)
    requires
        a != b,
    ensures
        proc::scratch_name(a) != proc::scratch_name(b),
        proc::starts_with(proc::scratch_name(a), "vocan-scratch-"@),
{
    text_laws::different_numbers_are_written_differently(a, b);
    let p: Seq<char> = "vocan-scratch-"@;
    let x: Seq<char> = text::decimal(a);
    let y: Seq<char> = text::decimal(b);
    assert((p + x).take(p.len() as int) =~= p);
    assert(p + x != p + y) by {
        if p + x == p + y {
            assert((p + x).skip(p.len() as int) =~= x);
            assert((p + y).skip(p.len() as int) =~= y);
        }
    }
}

// ---------------------------------------------------------------------------
// Streams
// ---------------------------------------------------------------------------

/// A stream of bytes holds a sample for every four of them; each sample is its four bytes, the
/// lowest first.
pub proof fn a_sample_is_its_four_bytes(b: Seq<u8>, k: int, bits: u32)
    requires
        0 <= k,
        4 * k + 4 <= b.len(),
        b[4 * k] == bits % 256,
        b[4 * k + 1] == bits / 256 % 256,
        b[4 * k + 2] == bits / 65536 % 256,
        b[4 * k + 3] == bits / 16777216,
    ensures
        4 * processing::samples_in(b).len() <= b.len() < 4 * processing::samples_in(b).len() + 4,
        k < processing::samples_in(b).len(),
        processing::samples_in(b)[k].bits == bits,
{
    assert(k < b.len() / 4);
    let n: int = b[4 * k] as int + 0x100 * b[4 * k + 1] + 0x1_0000 * b[4 * k + 2]
        + 0x100_0000 * b[4 * k + 3];
    assert(n == bits) by {
        let q: int = bits as int;
        assert(q == 256 * (q / 256) + q % 256);
        assert(q / 256 == 256 * (q / 65536) + q / 256 % 256);
        assert(q / 65536 == 256 * (q / 16777216) + q / 65536 % 256);
    }
}

/// How many samples a chunk completes: those of all bytes so far less those of the bytes before. One
/// of them was begun before the chunk exactly where bytes were left over and the chunk reaches its
/// end. That room is asked for: for one sample where one was begun, and for all of them.
pub proof fn room_is_asked_for_what_a_chunk_completes(fed: nat, chunk: nat)
    ensures
        ({
            let done = ((fed + chunk) / 4 - fed / 4) as nat;
            let r = processing::requests(fed, chunk);
            &&& processing::straddles(fed, chunk) <==> fed % 4 != 0 && done > 0
            &&& r.last() == done
            &&& processing::straddles(fed, chunk) ==> r == seq![1nat, done]
            &&& !processing::straddles(fed, chunk) ==> r == seq![done]
        }),
{
}

/// A decoder tells how many samples a chunk would complete.
pub proof fn a_decoder_tells_what_a_chunk_completes(
    d: &processing::StreamDecoder,
    chunk: usize,
    n: usize,
    begun: bool,
)
    requires
        d.wf(),
        call_ensures(processing::StreamDecoder::completed_by, (d, chunk), n),
        call_ensures(processing::StreamDecoder::completes_a_begun_sample, (d, chunk), begun),
    ensures
        n == (d.fed@.len() + chunk) / 4 - d.fed@.len() / 4,
        begun <==> d.fed@.len() % 4 != 0 && n > 0,
{
}

/// A chunk is refused exactly where there is no room for a sample that it completes: for the one
/// that was begun, or for one that lies in it as a whole. One that is not refused is taken whole;
/// of one that is, at most the rest of the sample that was begun is.
pub proof fn a_chunk_is_refused_where_there_is_no_room(fed: nat, chunk: nat, room: processing::Room)
    ensures
        ({
            let done: int = (fed + chunk) / 4 - fed / 4;
            let begun: int = if fed % 4 != 0 && done > 0 {
                1
            } else {
                0
            };
            let taken = processing::taken(fed, chunk, room);
            &&& processing::refused(fed, chunk, room) <==> (begun == 1 && !room.first) || (done
                - begun > 0 && !room.rest)
            &&& !processing::refused(fed, chunk, room) ==> taken == chunk
            &&& processing::refused(fed, chunk, room) ==> taken < chunk && taken <= 3
            &&& processing::refused(fed, chunk, room) && begun == 1 && room.first ==> (fed + taken)
                % 4 == 0
            &&& processing::refused(fed, chunk, room) && !(begun == 1 && room.first) ==> taken == 0
        }),
{
}

/// A decoder that runs out of memory says how much it had read.
pub proof fn running_out_of_memory_is_told(read: nat)
    ensures
        text::contains(
            processing::out_of_memory_text(read),
            crate::double::gigabytes(4 * read, 2) + " GB of samples"@,
        ),
{
    let a: Seq<char> = "ran out of memory decoding this file ("@;
    let g: Seq<char> = crate::double::gigabytes(4 * read, 2);
    let c: Seq<char> =
        " GB of samples read so far). Process it without Automixer, or split it into shorter takes."@;
    let d: Seq<char> =
        " read so far). Process it without Automixer, or split it into shorter takes."@;
    reveal_strlit(
        " GB of samples read so far). Process it without Automixer, or split it into shorter takes.",
    );
    reveal_strlit(" read so far). Process it without Automixer, or split it into shorter takes.");
    reveal_strlit(" GB of samples");
    assert(c =~= " GB of samples"@ + d);
    text_laws::lemma_found_between(a, g + " GB of samples"@, d);
    assert(a + (g + " GB of samples"@) + d =~= a + g + (" GB of samples"@ + d));
}

/// A wait for memory tells what is wanted, what is in use, and the budget.
pub proof fn a_wait_tells_the_amounts(want: nat, used: nat, budget: nat)
    ensures
        text::contains(memory::wait_text(want, used, budget), memory::gb(want)),
        text::contains(memory::wait_text(want, used, budget), memory::gb(used)),
        text::contains(memory::wait_text(want, used, budget), memory::gb(budget)),
{
    let a: Seq<char> = "Waiting for memory: this file needs "@;
    let b: Seq<char> = " GB, and other files in flight are already using "@;
    let c: Seq<char> = " GB of the "@;
    let d: Seq<char> =
        " GB budget. Throughput drops until they finish -- this is not a hang."@;
    let x: Seq<char> = memory::gb(want);
    let y: Seq<char> = memory::gb(used);
    let z: Seq<char> = memory::gb(budget);
    let t: Seq<char> = memory::wait_text(want, used, budget);
    text_laws::lemma_found_between(a, x, b + y + c + z + d);
    assert(a + x + (b + y + c + z + d) =~= t);
    text_laws::lemma_found_between(a + x + b, y, c + z + d);
    assert(a + x + b + y + (c + z + d) =~= t);
    text_laws::lemma_found_between(a + x + b + y + c, z, d);
    assert(a + x + b + y + c + z + d =~= t);
}

/// An encoding is published exactly where it succeeded; otherwise its failure is reported.
pub proof fn an_encoding_is_published_where_it_succeeded(
    success: Option<bool>,
    stderr: &str,
    r: EncodeVerdict,
)
    requires
        call_ensures(processing::encode_verdict, (success, stderr), r),
    ensures
        r is Commit <==> success == Some(true),
        r is Discard <==> success != Some(true),
        success == Some(false) ==> r->Discard_0@ == ffmpeg::failure_text("conversion"@, stderr@),
{
}

/// A result that could not be moved into place is told with where it is left, and why.
pub proof fn what_could_not_be_moved_is_told(partial: &str, reason: &str, r: String)
    requires
        call_ensures(processing::commit_failure, (partial, reason), r),
    ensures
        text::contains(r@, partial@),
        text::contains(r@, reason@),
{
    let a: Seq<char> = "encoded "@;
    let b: Seq<char> = " but could not move it into place: "@;
    let e: Seq<char> = Seq::empty();
    text_laws::lemma_found_between(a, partial@, b + reason@);
    assert(a + partial@ + (b + reason@) =~= r@);
    text_laws::lemma_found_between(a + partial@ + b, reason@, e);
    assert(a + partial@ + b + reason@ + e =~= r@);
}

// ---------------------------------------------------------------------------
// Trimming
// ---------------------------------------------------------------------------

/// What is kept of the silence: the 50 ms that it takes to tell it, and the pad on top, a quarter
/// of a second for each of its quarters.
pub proof fn the_pad_lies_on_top_of_the_detection(pad: SilencePad)
    ensures
        fixed::fixed(
            single::sum(processing::detection_window(), single::ratio(pad.quarters(), 4)),
            2,
        ) == fixed::placed((5 + 25 * pad.quarters()) as nat, 2),
        fixed::fixed(processing::detection_window(), 2) == fixed::placed(5, 2),
{
    let u: nat = pow2(149);
    exact::lemma_unit_is_large();
    exact::lemma_ratio_close(5, 100);
    let w: Single = single::ratio(5, 100);
    let m: nat = w.magnitude();
    assert(m * 100 == 100 * m);
    reveal_strlit("");
    lemma_two_places(w, 5);
    assert(""@ + fixed::placed(5, 2) =~= fixed::placed(5, 2));
    let q: int = pad.quarters();
    let r: Single = single::ratio(q, 4);
    exact::lemma_whole_zero();
    exact::lemma_whole_magnitude(4);
    if q == 0 {
        single::lemma_zero_magnitude(single::whole(0));
        single::lemma_whole_exact(4);
        single::lemma_units_order(0, 4);
        single::lemma_zero_quotient(single::whole(0), single::whole(4));
        single::lemma_zero_magnitude(r);
        exact::lemma_plus_zero(w, r);
        assert(m > 0);
    } else {
        exact::lemma_ratio_close(q as nat, 4);
        let n: nat = r.magnitude();
        let v: nat = m + n;
        let qu: nat = q as nat * u;
        assert(u <= qu <= 4 * u) by (nonlinear_arith)
            requires
                qu == q * u,
                1 <= q <= 4,
        ;
        assert(n * 4 == 4 * n);
        assert(v * 1 == v);
        assert(v <= 4 * u);
        assert(v <= pow2(200) * 1);
        exact::lemma_rounded_close(false, v, 1);
        let s: Single = single::sum(w, r);
        assert(s.magnitude() * 1 == s.magnitude());
        assert(25 * qu == (25 * q) * u) by (nonlinear_arith)
            requires
                qu == q * u,
        ;
        assert((5 + 25 * q) * u == 5 * u + 25 * qu) by (nonlinear_arith)
            requires
                qu == q * u,
        ;
        lemma_two_places(s, (5 + 25 * q) as nat);
        assert(""@ + fixed::placed((5 + 25 * q) as nat, 2) =~= fixed::placed(
            (5 + 25 * q) as nat,
            2,
        ));
    }
}

/// A number close enough to so many hundredths is written as these.
proof fn lemma_two_places(x: Single, k: nat)
    requires
        x.finite(),
        !x.negative(),
        8 * (100 * x.magnitude()) <= 8 * (k * pow2(149)) + pow2(149),
        8 * (k * pow2(149)) <= 8 * (100 * x.magnitude()) + pow2(149),
    ensures
        fixed::in_places(x, 2) == k,
{
    let u: nat = pow2(149);
    lemma_pow2_pos(149);
    assert(pow(10, 2) == 100) by {
        reveal_with_fuel(pow, 3);
    }
    let m: nat = x.magnitude();
    assert(m * 100 == 100 * m);
    rounding::lemma_half_even_close(m * 100, u);
    let r: nat = fixed::in_places(x, 2);
    assert(r == k) by (nonlinear_arith)
        requires
            2 * (r * u) <= 2 * (100 * m) + u,
            2 * (100 * m) <= 2 * (r * u) + u,
            8 * (100 * m) <= 8 * (k * u) + u,
            8 * (k * u) <= 8 * (100 * m) + u,
            u > 0,
    ;
}

/// Both ends are trimmed alike: the same filter runs forwards, and once more on the signal
/// reversed, which is then turned back.
pub proof fn both_ends_are_trimmed_alike(t: SilenceThreshold, p: SilencePad)
    ensures
        ({
            let h = processing::trim_head_text(t, p);
            let c = processing::trim_chain_text(t, p);
            c == h + ",areverse,"@ + h + ",areverse"@
        }),
        text::contains(
            processing::trim_head_text(t, p),
            ":start_threshold="@ + fixed::fixed(single::whole(t.whole_db()), 0) + "dB"@,
        ),
        text::contains(
            processing::trim_head_text(t, p),
            ":start_silence="@ + fixed::fixed(
                single::sum(processing::detection_window(), single::ratio(p.quarters(), 4)),
                2,
            ),
        ),
{
    let a: Seq<char> = "silenceremove=start_periods=1:start_duration="@;
    let w: Seq<char> = fixed::fixed(processing::detection_window(), 2);
    let l: Seq<char> = fixed::fixed(single::whole(t.whole_db()), 0);
    let k: Seq<char> = fixed::fixed(
        single::sum(processing::detection_window(), single::ratio(p.quarters(), 4)),
        2,
    );
    let b: Seq<char> = ":start_threshold="@;
    let c: Seq<char> = "dB:start_silence="@;
    let d: Seq<char> = ":start_silence="@;
    reveal_strlit("dB:start_silence=");
    reveal_strlit(":start_silence=");
    reveal_strlit("dB");
    assert(c =~= "dB"@ + d);
    let h: Seq<char> = processing::trim_head_text(t, p);
    let e: Seq<char> = Seq::empty();
    text_laws::lemma_found_between(a + w, b + l + "dB"@, d + k);
    assert(a + w + (b + l + "dB"@) + (d + k) =~= a + w + b + l + ("dB"@ + d) + k);
    text_laws::lemma_found_between(a + w + b + l + "dB"@, d + k, e);
    assert(a + w + b + l + "dB"@ + (d + k) + e =~= a + w + b + l + ("dB"@ + d) + k);
}

/// Where silence is trimmed, it is with the threshold and the pad that were chosen, with the clean-up
/// and without it.
pub proof fn the_trim_is_the_one_that_was_chosen(o: ProcessingOptions)
    requires
        o.trim_silence,
    ensures
        processing::trim_text(o) == Some(
            processing::trim_chain_text(o.trim_silence_threshold, o.trim_silence_pad),
        ),
        !o.automixer ==> processing::chain_text(o) == Some(
            processing::trim_chain_text(o.trim_silence_threshold, o.trim_silence_pad),
        ),
        o.automixer ==> processing::chain_text(o) == Some(
            processing::post_deesser_text() + ","@ + processing::trim_chain_text(
                o.trim_silence_threshold,
                o.trim_silence_pad,
            ),
        ),
{
}

/// What is said of a file that trimming would leave empty names the threshold and the peak.
pub proof fn silence_is_told_with_the_threshold(o: ProcessingOptions, peak: Single)
    ensures
        text::contains(
            pipeline::below_threshold_text(o, peak),
            fixed::fixed(single::whole(o.trim_silence_threshold.whole_db()), 0),
        ),
        peak.finite() ==> text::contains(
            pipeline::below_threshold_text(o, peak),
            fixed::fixed(peak, 1),
        ),
        !peak.finite() ==> text::contains(
            pipeline::below_threshold_text(o, peak),
            "digital silence"@,
        ),
{
    let a: Seq<char> = "nothing in this file reaches the Trim silence threshold ("@;
    let l: Seq<char> = fixed::fixed(single::whole(o.trim_silence_threshold.whole_db()), 0);
    let b: Seq<char> =
        " dB),                  so trimming would leave an empty file. Its loudest moment is "@;
    let m: Seq<char> = if peak.finite() {
        fixed::fixed(peak, 1) + " dB"@
    } else {
        "digital silence"@
    };
    let c: Seq<char> = ".                  Lower the threshold, or check the take."@;
    let t: Seq<char> = pipeline::below_threshold_text(o, peak);
    text_laws::lemma_found_between(a, l, b + m + c);
    assert(a + l + (b + m + c) =~= t);
    if peak.finite() {
        let f: Seq<char> = fixed::fixed(peak, 1);
        text_laws::lemma_found_between(a + l + b, f, " dB"@ + c);
        assert(a + l + b + f + (" dB"@ + c) =~= t);
    } else {
        text_laws::lemma_found_between(a + l + b, m, c);
    }
}

} // verus!
