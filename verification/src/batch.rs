//! Running over a folder: which files are processed, and what is reported of each.

use vstd::hash_map::StringHashMap;
use vstd::prelude::*;

use crate::fixed;
use crate::paths::FilePath;
use crate::paths;
use crate::single;
use crate::single::Single;
use crate::text;
use crate::types::{AppMsg, NormResult};

verus! {

// ---------------------------------------------------------------------------
// Folders
// ---------------------------------------------------------------------------

/// Whether two folders are the same on disk: by their resolved paths if both could be resolved,
/// else by `otherwise`, which is how they compare as they are written.
pub fn same_folder(a: Option<&FilePath>, b: Option<&FilePath>, otherwise: bool) -> (r: bool)
    ensures
        r == match (a, b) {
            (Some(x), Some(y)) => x@ == y@,
            _ => otherwise,
        },
{
    match (a, b) {
        (Some(x), Some(y)) => same_path(x, y),
        _ => otherwise,
    }
}

/// Whether two paths have the same components.
pub fn same_path(a: &FilePath, b: &FilePath) -> (r: bool)
    ensures
        r == (a@ == b@),
{
    if a.parts.len() != b.parts.len() {
        assert(a@.len() != b@.len());
        return false;
    }
    let r: bool = a.starts_with(b);
    assert(a@.take(b@.len() as int) =~= a@);
    r
}

/// Whether two texts are the same but for the case of ASCII letters.
pub fn same_ignoring_case(a: &str, b: &str) -> (r: bool)
    ensures
        r == (text::lowered(a@) == text::lowered(b@)),
{
    let ca: Vec<char> = text::chars_of(a);
    let cb: Vec<char> = text::chars_of(b);
    let la: String = text::lowered_from(ca.as_slice(), 0);
    let lb: String = text::lowered_from(cb.as_slice(), 0);
    assert(ca@.skip(0) =~= a@);
    assert(cb@.skip(0) =~= b@);
    text::same(la.as_str(), lb.as_str())
}

/// Whether the output folder lies inside the source folder, both resolved. Where one could not
/// be resolved it is not known to.
pub fn output_nested_in_input(input: Option<&FilePath>, output: Option<&FilePath>) -> (r: bool)
    ensures
        r == match (input, output) {
            (Some(i), Some(o)) => o@ != i@ && paths::under(o@, i@),
            _ => false,
        },
{
    match (input, output) {
        (Some(i), Some(o)) => !same_path(o, i) && o.starts_with(i),
        _ => false,
    }
}

/// What was found out about a pair of folders.
pub struct FolderFacts {
    /// The source is a folder.
    pub source_is_dir: bool,
    /// Why the output folder could not be created, if it could not.
    pub output_error: Option<String>,
    /// They are the same folder.
    pub same: bool,
    /// The output folder is inside the source folder.
    pub nested: bool,
}

/// What is wrong with a pair of folders, the first thing first.
pub open spec fn folder_complaint(
    input: Seq<char>,
    output: Seq<char>,
    f: FolderFacts,
) -> Option<Seq<char>> {
    if !f.source_is_dir {
        Some("Source folder does not exist, or is not a folder: "@ + input)
    } else if f.output_error is Some {
        Some("Cannot create the output folder "@ + output + ": "@ + f.output_error->0@)
    } else if f.same {
        Some(
            "Source and output folders must be different -- processing in place risks overwriting your original files."@,
        )
    } else if f.nested {
        Some(
            "The output folder is inside the source folder ("@ + output + " is under "@ + input
                + "). This run would work, but the next one would pick up these results as new source files and nest them deeper each time."@,
        )
    } else {
        None
    }
}

/// Checks a pair of folders; `input` and `output` are how they are shown.
pub fn validate_folders(input: &str, output: &str, f: &FolderFacts) -> (r: Result<(), String>)
    ensures
        match r {
            Ok(_) => folder_complaint(input@, output@, *f) is None,
            Err(m) => folder_complaint(input@, output@, *f) == Some(m@),
        },
{
    if !f.source_is_dir {
        return Err(text::joined("Source folder does not exist, or is not a folder: ", input));
    }
    if let Some(e) = &f.output_error {
        let mut m: String = "Cannot create the output folder ".to_owned();
        m.append(output);
        m.append(": ");
        m.append(e.as_str());
        return Err(m);
    }
    if f.same {
        return Err(
            "Source and output folders must be different -- processing in place risks overwriting your original files.".to_owned(),
        );
    }
    if f.nested {
        let mut m: String = "The output folder is inside the source folder (".to_owned();
        m.append(output);
        m.append(" is under ");
        m.append(input);
        m.append(
            "). This run would work, but the next one would pick up these results as new source files and nest them deeper each time.",
        );
        return Err(m);
    }
    Ok(())
}

// ---------------------------------------------------------------------------
// Picking the files
// ---------------------------------------------------------------------------

/// Where a file would be written.
pub struct Place {
    /// What two places have in common exactly if they are the same file.
    pub key: String,
    /// How the place is shown.
    pub shown: String,
}

/// A file that was found, and where it would be written; or why that cannot be told.
pub struct Candidate {
    pub shown: String,
    pub place: Result<Place, String>,
}

/// The key of the place of a candidate.
pub open spec fn key_of(c: Candidate) -> Option<Seq<char>> {
    match c.place {
        Ok(p) => Some(p.key@),
        Err(_) => None,
    }
}

/// The first of the candidates that would be written to the place with this key.
pub open spec fn first_to_claim(cs: Seq<Candidate>, key: Seq<char>) -> Option<nat>
    decreases cs.len(),
{
    if cs.len() == 0 {
        None
    } else {
        let before = first_to_claim(cs.drop_last(), key);
        if before is Some {
            before
        } else if key_of(cs.last()) == Some(key) {
            Some((cs.len() - 1) as nat)
        } else {
            None
        }
    }
}

/// The candidates that are processed: those that are the first to claim their place.
pub open spec fn picked(cs: Seq<Candidate>) -> Seq<nat>
    decreases cs.len(),
{
    if cs.len() == 0 {
        Seq::empty()
    } else {
        let head = picked(cs.drop_last());
        match key_of(cs.last()) {
            Some(k) => if first_to_claim(cs.drop_last(), k) is None {
                head.push((cs.len() - 1) as nat)
            } else {
                head
            },
            None => head,
        }
    }
}

/// What is said of a candidate that is left out, if it is.
pub open spec fn complaint(before: Seq<Candidate>, c: Candidate) -> Option<Seq<char>> {
    match c.place {
        Err(e) => Some("Skipping "@ + c.shown@ + ": cannot determine its output path: "@ + e@),
        Ok(p) => match first_to_claim(before, p.key@) {
            Some(j) => Some(
                "Skipping "@ + c.shown@ + ": it would be written to the same file as "@
                    + before[j as int].shown@ + " ("@ + p.shown@
                    + "). Rename one of them so both can be converted."@,
            ),
            None => None,
        },
    }
}

/// What is said of the candidates that are left out, in order.
pub open spec fn complaints(cs: Seq<Candidate>) -> Seq<Seq<char>>
    decreases cs.len(),
{
    if cs.len() == 0 {
        Seq::empty()
    } else {
        let head = complaints(cs.drop_last());
        match complaint(cs.drop_last(), cs.last()) {
            Some(m) => head.push(m),
            None => head,
        }
    }
}

/// The candidates to process, by their index, and what is said of the others.
pub struct Picked {
    pub keep: Vec<usize>,
    pub errors: Vec<String>,
}

proof fn lemma_first_is_in(cs: Seq<Candidate>, key: Seq<char>)
    ensures
        first_to_claim(cs, key) matches Some(j) ==> j < cs.len() && key_of(cs[j as int]) == Some(
            key,
        ),
    decreases cs.len(),
{
    if cs.len() > 0 {
        lemma_first_is_in(cs.drop_last(), key);
    }
}

/// Leaves out the files that would be written over one another, all but the first of them.
pub fn pick(cs: &Vec<Candidate>) -> (r: Picked)
    ensures
        r.keep@.map_values(|i: usize| i as nat) == picked(cs@),
        text::texts(r.errors@) == complaints(cs@),
{
    let mut claimed: StringHashMap<usize> = StringHashMap::new();
    let mut keep: Vec<usize> = Vec::new();
    let mut errors: Vec<String> = Vec::new();
    assert(keep@.map_values(|i: usize| i as nat) =~= Seq::<nat>::empty());
    assert(text::texts(errors@) =~= Seq::<Seq<char>>::empty());
    for i in 0..cs.len()
        invariant
            keep@.map_values(|i: usize| i as nat) == picked(cs@.take(i as int)),
            text::texts(errors@) == complaints(cs@.take(i as int)),
            forall|k: Seq<char>| #[trigger]
                claimed@.contains_key(k) <==> first_to_claim(cs@.take(i as int), k) is Some,
            forall|k: Seq<char>| #[trigger]
                claimed@.contains_key(k) ==> first_to_claim(cs@.take(i as int), k) == Some(
                    claimed@[k] as nat,
                ),
    {
        let c: &Candidate = &cs[i];
        let ghost before: Seq<Candidate> = cs@.take(i as int);
        proof {
            assert(cs@.take(i as int + 1).drop_last() =~= before);
            assert(cs@.take(i as int + 1).last() == *c);
        }
        match &c.place {
            Err(e) => {
                let mut m: String = "Skipping ".to_owned();
                m.append(c.shown.as_str());
                m.append(": cannot determine its output path: ");
                m.append(e.as_str());
                let ghost old_errors: Seq<String> = errors@;
                errors.push(m);
                assert(text::texts(errors@) =~= text::texts(old_errors).push(m@));
            },
            Ok(p) => {
                let found: Option<usize> = match claimed.get(p.key.as_str()) {
                    Some(j) => Some(*j),
                    None => None,
                };
                match found {
                    Some(j) => {
                        proof {
                            lemma_first_is_in(before, p.key@);
                        }
                        let mut m: String = "Skipping ".to_owned();
                        m.append(c.shown.as_str());
                        m.append(": it would be written to the same file as ");
                        m.append(cs[j].shown.as_str());
                        m.append(" (");
                        m.append(p.shown.as_str());
                        m.append("). Rename one of them so both can be converted.");
                        let ghost old_errors: Seq<String> = errors@;
                        errors.push(m);
                        assert(text::texts(errors@) =~= text::texts(old_errors).push(m@));
                    },
                    None => {
                        claimed.insert(p.key.clone(), i);
                        let ghost old_keep: Seq<usize> = keep@;
                        keep.push(i);
                        assert(keep@.map_values(|i: usize| i as nat) =~= old_keep.map_values(
                            |i: usize| i as nat,
                        ).push(i as nat));
                    },
                }
            },
        }
    }
    assert(cs@.take(cs@.len() as int) =~= cs@);
    Picked { keep, errors }
}

/// How many files are worked on at a time: one core is left to the window.
pub fn worker_threads(cores: usize) -> (n: usize)
    ensures
        n == if cores > 1 {
            cores - 1
        } else {
            1
        },
{
    if cores > 1 {
        cores - 1
    } else {
        1
    }
}

// ---------------------------------------------------------------------------
// Reports
// ---------------------------------------------------------------------------

/// What a message says: an error or not, and its text.
pub open spec fn said(m: AppMsg) -> Option<(bool, Seq<char>)> {
    match m {
        AppMsg::Log(t) => Some((false, t@)),
        AppMsg::Error(t) => Some((true, t@)),
        _ => None,
    }
}

/// What became of one file.
pub enum FileOutcome {
    Done(NormResult),
    Failed(String),
    /// The worker gave way under it.
    Panicked,
}

/// What is reported of one file of a run.
pub open spec fn file_report_text(file: Seq<char>, o: FileOutcome) -> (bool, Seq<char>) {
    match o {
        FileOutcome::Failed(e) => (true, "Error "@ + file + ": "@ + e@),
        FileOutcome::Panicked => (true, "Panic while processing: "@ + file),
        FileOutcome::Done(r) => match r {
            NormResult::Standard => (false, "Processed (LUFS 2-pass): "@ + file),
            NormResult::Padded => (false, "Processed (LUFS 2-pass + padding): "@ + file),
            NormResult::Peak { gain_db } => (
                false,
                "Processed (peak norm, gain "@ + fixed::fixed(gain_db, 1) + " dB): "@ + file,
            ),
            NormResult::Skipped => (
                false,
                "Converted without normalization (silent/empty): "@ + file,
            ),
        },
    }
}

/// Reports one file of a run.
pub fn file_report(file: &str, o: &FileOutcome) -> (m: AppMsg)
    ensures
        said(m) == Some(file_report_text(file@, *o)),
{
    match o {
        FileOutcome::Failed(e) => {
            let mut t: String = text::joined("Error ", file);
            t.append(": ");
            t.append(e.as_str());
            AppMsg::Error(t)
        },
        FileOutcome::Panicked => AppMsg::Error(text::joined("Panic while processing: ", file)),
        FileOutcome::Done(r) => match r {
            NormResult::Standard => AppMsg::Log(text::joined("Processed (LUFS 2-pass): ", file)),
            NormResult::Padded => AppMsg::Log(
                text::joined("Processed (LUFS 2-pass + padding): ", file),
            ),
            NormResult::Peak { gain_db } => {
                let gain: String = fixed::fixed_text(*gain_db, 1);
                let mut t: String = text::joined("Processed (peak norm, gain ", gain.as_str());
                t.append(" dB): ");
                t.append(file);
                AppMsg::Log(t)
            },
            NormResult::Skipped => AppMsg::Log(
                text::joined("Converted without normalization (silent/empty): ", file),
            ),
        },
    }
}

/// What measuring one file for the overview gave.
pub enum LoudnessOutcome {
    /// The loudness, or `None` if the file is too short or too quiet to tell.
    Measured(Option<Single>),
    Failed(String),
    /// The worker gave way under it.
    Panicked,
}

/// The loudness of the files measured so far.
pub struct LoudnessTally {
    pub sum: Single,
    pub count: usize,
}

/// What is reported of one file of an analysis; nothing if its loudness counts.
pub open spec fn loudness_report_text(file: Seq<char>, o: LoudnessOutcome) -> Option<
    (bool, Seq<char>),
> {
    match o {
        LoudnessOutcome::Measured(Some(_)) => None,
        LoudnessOutcome::Measured(None) => Some(
            (false, "Skipped in analysis (too short/quiet): "@ + file),
        ),
        LoudnessOutcome::Failed(e) => Some(
            (false, "Analysis error for "@ + file + ": "@ + e@),
        ),
        LoudnessOutcome::Panicked => Some((true, "Panic while analyzing: "@ + file)),
    }
}

/// What a report says.
pub open spec fn said_if_any(m: Option<AppMsg>) -> Option<(bool, Seq<char>)> {
    match m {
        Some(m) => said(m),
        None => None,
    }
}

/// A tally once a file has been counted in, if its loudness is known.
pub open spec fn tallied(t: LoudnessTally, o: LoudnessOutcome) -> LoudnessTally {
    match o {
        LoudnessOutcome::Measured(Some(v)) => LoudnessTally {
            sum: single::sum(t.sum, v),
            count: (t.count + 1) as usize,
        },
        _ => t,
    }
}

impl LoudnessTally {
    /// Nothing measured yet.
    pub fn new() -> (t: LoudnessTally)
        ensures
            t.sum == single::whole(0),
            t.count == 0,
    {
        LoudnessTally { sum: Single::from_i32(0), count: 0 }
    }

    /// Counts one file in if its loudness is known, and reports it if not.
    pub fn add(&mut self, file: &str, o: &LoudnessOutcome) -> (m: Option<AppMsg>)
        requires
            old(self).count < usize::MAX,
        ensures
            said_if_any(m) == loudness_report_text(file@, *o),
            m is None <==> loudness_report_text(file@, *o) is None,
            match *o {
                LoudnessOutcome::Measured(Some(v)) => final(self).sum == single::sum(
                    old(self).sum,
                    v,
                ) && final(self).count == old(self).count + 1,
                _ => final(self).sum == old(self).sum && final(self).count == old(self).count,
            },
            *final(self) == tallied(*old(self), *o),
    {
        match o {
            LoudnessOutcome::Measured(Some(v)) => {
                self.sum = self.sum.plus(*v);
                self.count = self.count + 1;
                None
            },
            LoudnessOutcome::Measured(None) => Some(
                AppMsg::Log(text::joined("Skipped in analysis (too short/quiet): ", file)),
            ),
            LoudnessOutcome::Failed(e) => {
                let mut t: String = text::joined("Analysis error for ", file);
                t.append(": ");
                t.append(e.as_str());
                Some(AppMsg::Log(t))
            },
            LoudnessOutcome::Panicked => Some(
                AppMsg::Error(text::joined("Panic while analyzing: ", file)),
            ),
        }
    }

    /// The average loudness, if anything was measured.
    pub open spec fn average(self) -> Option<Single> {
        if self.count > 0 {
            Some(single::quotient(self.sum, single::whole(self.count as int)))
        } else {
            None
        }
    }

    /// The messages that end an analysis.
    pub fn finish(&self, cancelled: bool) -> (r: Vec<AppMsg>)
        ensures
            cancelled ==> r@.len() == 2 && said(r@[0]) == Some(
                (false, "Analysis stopped by user."@),
            ) && r@[1] is Stopped,
            !cancelled && self.average() is None ==> r@.len() == 2 && said(r@[0]) == Some(
                (true, "No valid audio files found for analysis."@),
            ) && r@[1] is Finished,
            !cancelled && self.average() is Some ==> {
                let avg = self.average()->0;
                &&& r@.len() == 3
                &&& r@[0] == AppMsg::AnalysisResult(avg)
                &&& said(r@[1]) == Some(
                    (
                        false,
                        "Analysis finished. Average LUFS: "@ + fixed::fixed(avg, 2) + " (from "@
                            + text::decimal(self.count as nat) + " files)"@,
                    ),
                )
                &&& r@[2] is Finished
            },
    {
        let mut r: Vec<AppMsg> = Vec::new();
        if cancelled {
            r.push(AppMsg::Log("Analysis stopped by user.".to_owned()));
            r.push(AppMsg::Stopped);
            return r;
        }
        if self.count > 0 {
            let avg: Single = self.sum.over(Single::from_u64(self.count as u64));
            let shown: String = fixed::fixed_text(avg, 2);
            let number: String = text::decimal_text(self.count as u128);
            let mut t: String = text::joined(
                "Analysis finished. Average LUFS: ",
                shown.as_str(),
            );
            t.append(" (from ");
            t.append(number.as_str());
            t.append(" files)");
            r.push(AppMsg::AnalysisResult(avg));
            r.push(AppMsg::Log(t));
        } else {
            r.push(AppMsg::Error("No valid audio files found for analysis.".to_owned()));
        }
        r.push(AppMsg::Finished);
        r
    }
}

/// The messages that end a run.
pub fn end_of_run(cancelled: bool) -> (r: Vec<AppMsg>)
    ensures
        r@.len() == 2,
        cancelled ==> said(r@[0]) == Some((false, "Processing stopped by user."@))
            && r@[1] is Stopped,
        !cancelled ==> said(r@[0]) == Some((false, "Processing finished."@))
            && r@[1] is Finished,
{
    let mut r: Vec<AppMsg> = Vec::new();
    if cancelled {
        r.push(AppMsg::Log("Processing stopped by user.".to_owned()));
        r.push(AppMsg::Stopped);
    } else {
        r.push(AppMsg::Log("Processing finished.".to_owned()));
        r.push(AppMsg::Finished);
    }
    r
}

/// What is said of a run whose worker ended without having sent its own last message.
pub open spec fn lost_run_text() -> Seq<char> {
    "Worker thread ended unexpectedly; the run was aborted. Any remaining files were not processed."@
}

/// The messages that a worker leaves behind when it ends without having sent its own last one.
pub fn end_of_lost_run() -> (r: Vec<AppMsg>)
    ensures
        r@.len() == 2,
        said(r@[0]) == Some((true, lost_run_text())),
        r@[1] is Finished,
{
    let mut r: Vec<AppMsg> = Vec::new();
    r.push(
        AppMsg::Error(
            "Worker thread ended unexpectedly; the run was aborted. Any remaining files were not processed.".to_owned(),
        ),
    );
    r.push(AppMsg::Finished);
    r
}

/// The messages that a worker leaves behind when it ends: none once it has sent its own last one,
/// and until then, while it is `armed`, those of a lost run.
pub fn messages_on_drop(armed: bool) -> (r: Vec<AppMsg>)
    ensures
        !armed ==> r@.len() == 0,
        armed ==> {
            &&& r@.len() == 2
            &&& said(r@[0]) == Some((true, lost_run_text()))
            &&& r@[1] is Finished
        },
{
    if armed {
        end_of_lost_run()
    } else {
        Vec::new()
    }
}

// ---------------------------------------------------------------------------
// Laws
// ---------------------------------------------------------------------------

proof fn lemma_picked(cs: Seq<Candidate>, a: int)
    requires
        0 <= a < picked(cs).len(),
    ensures
        ({
            let p = picked(cs)[a];
            &&& p < cs.len()
            &&& key_of(cs[p as int]) is Some
            &&& first_to_claim(cs, key_of(cs[p as int])->0) == Some(p)
        }),
        forall|b: int| 0 <= b < a ==> picked(cs)[b] < picked(cs)[a],
    decreases cs.len(),
{
    if cs.len() > 0 {
        let head: Seq<nat> = picked(cs.drop_last());
        if a < head.len() {
            lemma_picked(cs.drop_last(), a);
        } else {
            assert forall|b: int| 0 <= b < a implies picked(cs)[b] < picked(cs)[a] by {
                lemma_picked(cs.drop_last(), b);
            }
        }
    }
}

/// No two files that are processed are written to the same place.
pub proof fn outputs_are_distinct(cs: Seq<Candidate>, a: int, b: int)
    requires
        0 <= a < b < picked(cs).len(),
    ensures
        picked(cs)[a] < picked(cs)[b] < cs.len(),
        key_of(cs[picked(cs)[a] as int]) is Some,
        key_of(cs[picked(cs)[b] as int]) is Some,
        key_of(cs[picked(cs)[a] as int]) != key_of(cs[picked(cs)[b] as int]),
{
    lemma_picked(cs, a);
    lemma_picked(cs, b);
}

/// A file with a place is processed, or its place belongs to one that was found before it and is
/// processed.
pub proof fn every_place_is_written_once(cs: Seq<Candidate>, i: int)
    requires
        0 <= i < cs.len(),
        key_of(cs[i]) is Some,
    ensures
        exists|a: int|
            0 <= a < picked(cs).len() && #[trigger] picked(cs)[a] <= i && key_of(
                cs[picked(cs)[a] as int],
            ) == key_of(cs[i]),
    decreases cs.len(),
{
    let rest: Seq<Candidate> = cs.drop_last();
    if i < cs.len() - 1 {
        every_place_is_written_once(rest, i);
        let a: int = choose|a: int|
            0 <= a < picked(rest).len() && #[trigger] picked(rest)[a] <= i && key_of(
                rest[picked(rest)[a] as int],
            ) == key_of(rest[i]);
        lemma_picked(rest, a);
        assert(picked(cs)[a] == picked(rest)[a]);
    } else {
        let k: Seq<char> = key_of(cs[i])->0;
        if first_to_claim(rest, k) is None {
            let a: int = picked(cs).len() - 1;
            assert(picked(cs)[a] == i);
        } else {
            lemma_first_is_in(rest, k);
            let j: nat = first_to_claim(rest, k)->0;
            every_place_is_written_once(rest, j as int);
            let a: int = choose|a: int|
                0 <= a < picked(rest).len() && #[trigger] picked(rest)[a] <= j && key_of(
                    rest[picked(rest)[a] as int],
                ) == key_of(rest[j as int]);
            lemma_picked(rest, a);
            assert(picked(cs)[a] == picked(rest)[a]);
        }
    }
}

} // verus!
