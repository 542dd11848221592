//! Laws of a whole run: which files it takes, what it says of each, and the memory it shares out.

use vstd::arithmetic::power2::*;
use vstd::prelude::*;

use crate::batch;
use crate::batch::{Candidate, FileOutcome, FolderFacts, LoudnessOutcome, LoudnessTally};
use crate::double;
use crate::exact;
use crate::fixed;
use crate::memory;
use crate::paths::{FilePath, PartModel};
use crate::single;
use crate::single::Single;
use crate::text;
use crate::text_laws;
use crate::types::{AppMsg, NormResult};

verus! {

// ---------------------------------------------------------------------------
// Which files are taken
// ---------------------------------------------------------------------------

proof fn lemma_claimed(cs: Seq<Candidate>, key: Seq<char>)
    ensures
        batch::first_to_claim(cs, key) is None <==> forall|j: int|
            0 <= j < cs.len() ==> batch::key_of(#[trigger] cs[j]) != Some(key),
        batch::first_to_claim(cs, key) matches Some(k) ==> k < cs.len() && batch::key_of(
            cs[k as int],
        ) == Some(key) && forall|j: int|
            0 <= j < k ==> batch::key_of(#[trigger] cs[j]) != Some(key),
    decreases cs.len(),
{
    if cs.len() > 0 {
        let h: Seq<Candidate> = cs.drop_last();
        lemma_claimed(h, key);
        assert forall|j: int| 0 <= j < h.len() implies h[j] == cs[j] by {}
        assert(cs.last() == cs[cs.len() - 1]);
        match batch::first_to_claim(h, key) {
            Some(k) => {
                assert(cs[k as int] == h[k as int]);
                assert forall|j: int| 0 <= j < k implies batch::key_of(#[trigger] cs[j]) != Some(
                    key,
                ) by {
                    assert(h[j] == cs[j]);
                }
            },
            None => {
                assert forall|j: int| 0 <= j < h.len() implies batch::key_of(#[trigger] cs[j])
                    != Some(key) by {
                    assert(h[j] == cs[j]);
                }
            },
        }
    }
}

/// No candidate before `i` is written to the same place.
pub open spec fn claims_first(cs: Seq<Candidate>, i: int) -> bool {
    batch::key_of(cs[i]) is Some && forall|j: int|
        0 <= j < i ==> batch::key_of(#[trigger] cs[j]) != batch::key_of(cs[i])
}

/// A file is taken exactly where its output is known and no file before it is written there.
pub proof fn a_file_is_taken_where_it_claims_its_place_first(cs: Seq<Candidate>, i: nat)
    requires
        i < cs.len(),
    ensures
        batch::picked(cs).contains(i) <==> claims_first(cs, i as int),
    decreases cs.len(),
{
    let h: Seq<Candidate> = cs.drop_last();
    let head: Seq<nat> = batch::picked(h);
    lemma_picked_in_range(h);
    let last: Candidate = cs.last();
    assert forall|j: int| 0 <= j < h.len() implies h[j] == cs[j] by {}
    if i < h.len() {
        a_file_is_taken_where_it_claims_its_place_first(h, i);
        assert(claims_first(h, i as int) <==> claims_first(cs, i as int)) by {
            assert forall|j: int| 0 <= j < i implies h[j] == cs[j] by {}
            if claims_first(h, i as int) {
                assert forall|j: int| 0 <= j < i implies batch::key_of(#[trigger] cs[j])
                    != batch::key_of(cs[i as int]) by {
                    assert(h[j] == cs[j]);
                }
            }
            if claims_first(cs, i as int) {
                assert forall|j: int| 0 <= j < i implies batch::key_of(#[trigger] h[j])
                    != batch::key_of(h[i as int]) by {
                    assert(h[j] == cs[j]);
                }
            }
        }
        lemma_push_contains(head, (cs.len() - 1) as nat, i);
    } else {
        assert(!head.contains(i)) by {
            if head.contains(i) {
                let a: int = choose|a: int| 0 <= a < head.len() && head[a] == i;
                assert(head[a] < h.len());
            }
        }
        lemma_push_contains(head, i, i);
        match batch::key_of(last) {
            Some(k) => {
                lemma_claimed(h, k);
                if batch::first_to_claim(h, k) is None {
                    assert forall|j: int| 0 <= j < i implies batch::key_of(#[trigger] cs[j])
                        != batch::key_of(cs[i as int]) by {
                        assert(h[j] == cs[j]);
                    }
                } else {
                    let m: int = batch::first_to_claim(h, k)->0 as int;
                    assert(h[m] == cs[m]);
                    assert(batch::key_of(cs[m]) == batch::key_of(cs[i as int]));
                }
            },
            None => {},
        }
    }
}

proof fn lemma_push_contains(s: Seq<nat>, v: nat, w: nat)
    ensures
        s.push(v).contains(w) <==> s.contains(w) || v == w,
{
    if s.contains(w) {
        let a: int = choose|a: int| 0 <= a < s.len() && s[a] == w;
        assert(s.push(v)[a] == w);
    }
    if v == w {
        assert(s.push(v)[s.len() as int] == w);
    }
    if s.push(v).contains(w) {
        let a: int = choose|a: int| 0 <= a < s.push(v).len() && s.push(v)[a] == w;
        if a < s.len() {
            assert(s[a] == w);
        }
    }
}

proof fn lemma_picked_in_range(cs: Seq<Candidate>)
    ensures
        forall|a: int| 0 <= a < batch::picked(cs).len() ==> #[trigger] batch::picked(cs)[a]
            < cs.len(),
    decreases cs.len(),
{
    if cs.len() > 0 {
        let head: Seq<nat> = batch::picked(cs.drop_last());
        lemma_picked_in_range(cs.drop_last());
        assert forall|a: int| 0 <= a < batch::picked(cs).len() implies #[trigger] batch::picked(
            cs,
        )[a] < cs.len() by {
            if a < head.len() {
                assert(head[a] < cs.drop_last().len());
            }
        }
    }
}

/// Every file is either taken or complained about, never both.
pub proof fn every_file_is_taken_or_complained_about(cs: Seq<Candidate>)
    ensures
        batch::picked(cs).len() + batch::complaints(cs).len() == cs.len(),
    decreases cs.len(),
{
    if cs.len() > 0 {
        every_file_is_taken_or_complained_about(cs.drop_last());
    }
}

/// What is to be said of a file that is left out is said.
pub proof fn what_is_to_be_said_of_a_file_is_said(cs: Seq<Candidate>, i: int)
    requires
        0 <= i < cs.len(),
    ensures
        batch::complaint(cs.take(i), cs[i]) matches Some(m) ==> batch::complaints(cs).contains(m),
        batch::complaint(cs.take(i), cs[i]) is Some <==> !claims_first(cs, i),
    decreases cs.len(),
{
    let h: Seq<Candidate> = cs.drop_last();
    let c: Option<Seq<char>> = batch::complaint(cs.take(i), cs[i]);
    if let Ok(p) = cs[i].place {
        lemma_claimed(cs.take(i), p.key@);
        if claims_first(cs, i) {
            assert forall|j: int| 0 <= j < cs.take(i).len() implies batch::key_of(
                #[trigger] cs.take(i)[j],
            ) != Some(p.key@) by {
                assert(cs.take(i)[j] == cs[j]);
            }
        } else {
            let j: int = choose|j: int|
                0 <= j < i && batch::key_of(#[trigger] cs[j]) == batch::key_of(cs[i]);
            assert(cs.take(i)[j] == cs[j]);
        }
    }
    if i < h.len() {
        what_is_to_be_said_of_a_file_is_said(h, i);
        assert(h.take(i) =~= cs.take(i));
        assert(h[i] == cs[i]);
        if let Some(m) = c {
            let k: int = choose|k: int|
                0 <= k < batch::complaints(h).len() && batch::complaints(h)[k] == m;
            assert(batch::complaints(cs)[k] == m);
        }
    } else {
        assert(cs.take(i) =~= h);
        if let Some(m) = c {
            assert(batch::complaints(cs) == batch::complaints(h).push(m));
            assert(batch::complaints(cs)[batch::complaints(h).len() as int] == m);
        }
    }
}

/// A complaint names the file that is left out, and the one that it would have overwritten.
pub proof fn a_complaint_names_the_files(before: Seq<Candidate>, c: Candidate, m: Seq<char>)
    requires
        batch::complaint(before, c) == Some(m),
    ensures
        text::contains(m, c.shown@),
        c.place matches Err(e) ==> text::contains(m, e@),
        c.place matches Ok(p) ==> text::contains(m, p.shown@) && exists|j: int|
            0 <= j < before.len() && batch::key_of(#[trigger] before[j]) == Some(p.key@)
                && text::contains(m, before[j].shown@),
{
    let a: Seq<char> = "Skipping "@;
    match c.place {
        Err(e) => {
            let b: Seq<char> = ": cannot determine its output path: "@;
            text_laws::lemma_found_between(a, c.shown@, b + e@);
            assert(a + c.shown@ + (b + e@) =~= m);
            text_laws::lemma_found_between(a + c.shown@ + b, e@, Seq::empty());
            assert(a + c.shown@ + b + e@ + Seq::<char>::empty() =~= m);
        },
        Ok(p) => {
            lemma_claimed(before, p.key@);
            let j: int = batch::first_to_claim(before, p.key@)->0 as int;
            let b: Seq<char> = ": it would be written to the same file as "@;
            let d: Seq<char> = "). Rename one of them so both can be converted."@;
            let o: Seq<char> = before[j].shown@;
            text_laws::lemma_found_between(a, c.shown@, b + o + " ("@ + p.shown@ + d);
            assert(a + c.shown@ + (b + o + " ("@ + p.shown@ + d) =~= m);
            text_laws::lemma_found_between(a + c.shown@ + b, o, " ("@ + p.shown@ + d);
            assert(a + c.shown@ + b + o + (" ("@ + p.shown@ + d) =~= m);
            text_laws::lemma_found_between(a + c.shown@ + b + o + " ("@, p.shown@, d);
            assert(batch::key_of(before[j]) == Some(p.key@));
        },
    }
}

/// One core is left to the window, unless there is only one.
pub proof fn one_core_is_left(cores: usize, n: usize)
    requires
        call_ensures(batch::worker_threads, (cores,), n),
    ensures
        cores >= 2 ==> n + 1 == cores,
        cores < 2 ==> n == 1,
{
}

/// The folders are accepted exactly where the source is a folder, the output could be made, and
/// they are neither the same nor one inside the other; a complaint names the folder at fault.
pub proof fn folders_are_accepted_where_nothing_is_wrong(
    input: Seq<char>,
    output: Seq<char>,
    f: FolderFacts,
)
    ensures
        batch::folder_complaint(input, output, f) is None <==> f.source_is_dir
            && f.output_error is None && !f.same && !f.nested,
        !f.source_is_dir ==> text::contains(batch::folder_complaint(input, output, f)->0, input),
        f.source_is_dir && f.output_error is Some ==> text::contains(
            batch::folder_complaint(input, output, f)->0,
            output,
        ) && text::contains(batch::folder_complaint(input, output, f)->0, f.output_error->0@),
        f.source_is_dir && f.output_error is None && !f.same && f.nested ==> text::contains(
            batch::folder_complaint(input, output, f)->0,
            output,
        ) && text::contains(batch::folder_complaint(input, output, f)->0, input),
{
    let e: Seq<char> = Seq::empty();
    if !f.source_is_dir {
        let a: Seq<char> = "Source folder does not exist, or is not a folder: "@;
        text_laws::lemma_found_between(a, input, e);
        assert(a + input + e =~= a + input);
    } else if f.output_error is Some {
        let a: Seq<char> = "Cannot create the output folder "@;
        let m: Seq<char> = f.output_error->0@;
        text_laws::lemma_found_between(a, output, ": "@ + m);
        assert(a + output + (": "@ + m) =~= a + output + ": "@ + m);
        text_laws::lemma_found_between(a + output + ": "@, m, e);
        assert(a + output + ": "@ + m + e =~= a + output + ": "@ + m);
    } else if !f.same && f.nested {
        let a: Seq<char> = "The output folder is inside the source folder ("@;
        let b: Seq<char> = " is under "@;
        let c: Seq<char> =
            "). This run would work, but the next one would pick up these results as new source files and nest them deeper each time."@;
        text_laws::lemma_found_between(a, output, b + input + c);
        assert(a + output + (b + input + c) =~= a + output + b + input + c);
        text_laws::lemma_found_between(a + output + b, input, c);
    }
}

/// Two folders are the same where both are known and equal, and by name where one is not; the
/// output is nested where it lies somewhere below the source.
pub proof fn folders_are_compared_by_their_parts(
    a: &FilePath,
    b: &FilePath,
    otherwise: bool,
    same: bool,
    unknown: bool,
    nested: bool,
    apart: bool,
    rest: Seq<PartModel>,
)
    requires
        call_ensures(batch::same_folder, (Some(a), Some(b), otherwise), same),
        call_ensures(batch::same_folder, (None, Some(b), otherwise), unknown),
        call_ensures(batch::output_nested_in_input, (Some(a), Some(b)), nested),
        call_ensures(batch::output_nested_in_input, (None, Some(b)), apart),
    ensures
        !apart,
        same == (a@ == b@),
        unknown == otherwise,
        b@ == a@ + rest && rest.len() > 0 ==> nested,
        nested ==> exists|r: Seq<PartModel>| r.len() > 0 && b@ == #[trigger] (a@ + r),
{
    if b@ == a@ + rest && rest.len() > 0 {
        assert(b@.take(a@.len() as int) =~= a@);
        assert(b@.len() != a@.len());
    }
    if nested {
        let r: Seq<PartModel> = b@.skip(a@.len() as int);
        assert(b@ =~= a@ + r);
        if r.len() == 0 {
            assert(b@ =~= a@);
        }
    }
}

// ---------------------------------------------------------------------------
// What is said
// ---------------------------------------------------------------------------

/// Every report names its file; it is an error exactly where the file failed, with the reason where
/// there is one.
pub proof fn every_report_names_its_file(file: Seq<char>, o: FileOutcome)
    ensures
        text::contains(batch::file_report_text(file, o).1, file),
        batch::file_report_text(file, o).0 <==> !(o is Done),
        o matches FileOutcome::Failed(e) ==> text::contains(
            batch::file_report_text(file, o).1,
            e@,
        ),
        o matches FileOutcome::Done(NormResult::Peak { gain_db }) ==> text::contains(
            batch::file_report_text(file, o).1,
            fixed::fixed(gain_db, 1) + " dB"@,
        ),
{
    let t: Seq<char> = batch::file_report_text(file, o).1;
    let e: Seq<char> = Seq::empty();
    match o {
        FileOutcome::Failed(m) => {
            text_laws::lemma_found_between("Error "@, file, ": "@ + m@);
            assert("Error "@ + file + (": "@ + m@) =~= t);
            text_laws::lemma_found_between("Error "@ + file + ": "@, m@, e);
            assert("Error "@ + file + ": "@ + m@ + e =~= t);
        },
        FileOutcome::Panicked => {
            text_laws::lemma_found_between("Panic while processing: "@, file, e);
            assert("Panic while processing: "@ + file + e =~= t);
        },
        FileOutcome::Done(r) => {
            let a: Seq<char> = match r {
                NormResult::Standard => "Processed (LUFS 2-pass): "@,
                NormResult::Padded => "Processed (LUFS 2-pass + padding): "@,
                NormResult::Peak { gain_db } => "Processed (peak norm, gain "@ + fixed::fixed(
                    gain_db,
                    1,
                ) + " dB): "@,
                NormResult::Skipped => "Converted without normalization (silent/empty): "@,
            };
            text_laws::lemma_found_between(a, file, e);
            assert(a + file + e =~= t);
            if let NormResult::Peak { gain_db } = r {
                lemma_gain_is_told(file, gain_db);
            }
        },
    }
}

proof fn lemma_gain_is_told(file: Seq<char>, gain_db: Single)
    ensures
        text::contains(
            "Processed (peak norm, gain "@ + fixed::fixed(gain_db, 1) + " dB): "@ + file,
            fixed::fixed(gain_db, 1) + " dB"@,
        ),
{
    let f: Seq<char> = fixed::fixed(gain_db, 1);
    let p: Seq<char> = "Processed (peak norm, gain "@;
    reveal_strlit(" dB): ");
    reveal_strlit(" dB");
    reveal_strlit("): ");
    assert(" dB): "@ =~= " dB"@ + "): "@);
    text_laws::lemma_found_between(p, f + " dB"@, "): "@ + file);
    assert(p + (f + " dB"@) + ("): "@ + file) =~= p + f + (" dB"@ + "): "@) + file);
}

/// The loudness of a file that was measured, in whole LUFS.
pub open spec fn loudness_of(o: LoudnessOutcome, v: int) -> bool {
    o == LoudnessOutcome::Measured(Some(single::whole(v)))
}

/// The tally once these files have been counted in.
pub open spec fn tallied_all(os: Seq<LoudnessOutcome>) -> LoudnessTally
    decreases os.len(),
{
    if os.len() == 0 {
        LoudnessTally { sum: single::whole(0), count: 0 }
    } else {
        batch::tallied(tallied_all(os.drop_last()), os.last())
    }
}

/// The sum of the loudness of the files that were measured, and how many of them there are: `v`
/// gives the loudness of each file, or nothing.
pub open spec fn measured(v: Seq<Option<int>>) -> (int, nat)
    decreases v.len(),
{
    if v.len() == 0 {
        (0, 0)
    } else {
        let (s, n) = measured(v.drop_last());
        match v.last() {
            Some(i) => (s + i, n + 1),
            None => (s, n),
        }
    }
}

/// The outcome says what `v` says.
pub open spec fn tells(o: LoudnessOutcome, v: Option<int>) -> bool {
    match v {
        Some(i) => loudness_of(o, i) && -1000 <= i <= 1000,
        None => o is Failed || o is Panicked || o == LoudnessOutcome::Measured(None),
    }
}

/// Every file that was measured counts, once, and no other does: in whole LUFS the tally holds
/// their sum and their number, and the average is the one over the other.
pub proof fn every_measured_file_counts_once(os: Seq<LoudnessOutcome>, v: Seq<Option<int>>)
    requires
        os.len() == v.len(),
        os.len() < 0x1000,
        forall|i: int| 0 <= i < os.len() ==> tells(#[trigger] os[i], v[i]),
    ensures
        tallied_all(os).sum == single::whole(measured(v).0),
        tallied_all(os).count == measured(v).1,
        measured(v).1 > 0 ==> tallied_all(os).average() == Some(
            single::ratio(measured(v).0, measured(v).1 as int),
        ),
        measured(v).1 == 0 ==> tallied_all(os).average() is None,
        measured(v).1 <= os.len(),
        -1000 * os.len() <= measured(v).0 <= 1000 * os.len(),
    decreases os.len(),
{
    if os.len() > 0 {
        let a: Seq<LoudnessOutcome> = os.drop_last();
        let b: Seq<Option<int>> = v.drop_last();
        assert forall|i: int| 0 <= i < a.len() implies tells(#[trigger] a[i], b[i]) by {
            assert(a[i] == os[i] && b[i] == v[i]);
        }
        every_measured_file_counts_once(a, b);
        assert(tells(os[os.len() - 1], v[v.len() - 1]));
        if let Some(i) = v.last() {
            exact::lemma_whole_sum(measured(b).0, i);
        }
    }
}

/// An analysis ends with its average, unless it was stopped or found nothing; the last message ends
/// it in any case.
pub proof fn an_analysis_ends_with_its_average(t: &LoudnessTally, cancelled: bool, r: Vec<AppMsg>)
    requires
        call_ensures(LoudnessTally::finish, (t, cancelled), r),
    ensures
        r@.len() > 0,
        r@.last() is Finished || r@.last() is Stopped,
        r@.last() is Stopped <==> cancelled,
        (exists|i: int| 0 <= i < r@.len() && #[trigger] r@[i] is AnalysisResult) <==> !cancelled
            && t.count > 0,
        !cancelled && t.count > 0 ==> r@[0] == AppMsg::AnalysisResult(
            single::quotient(t.sum, single::whole(t.count as int)),
        ),
{
    if !cancelled && t.count > 0 {
        assert(r@[0] is AnalysisResult);
    }
}

/// A run ends with one last message, that it was stopped exactly where it was.
pub proof fn a_run_ends_with_one_last_message(
    cancelled: bool,
    r: Vec<AppMsg>,
    lost: Vec<AppMsg>,
    quiet: Vec<AppMsg>,
)
    requires
        call_ensures(batch::end_of_run, (cancelled,), r),
        call_ensures(batch::messages_on_drop, (true,), lost),
        call_ensures(batch::messages_on_drop, (false,), quiet),
    ensures
        r@.len() == 2,
        r@[1] is Stopped <==> cancelled,
        r@[1] is Finished <==> !cancelled,
        batch::said(r@[0]) matches Some(s) && !s.0,
        lost@.len() == 2,
        lost@[1] is Finished,
        batch::said(lost@[0]) matches Some(s) && s.0,
        quiet@.len() == 0,
{
}

// ---------------------------------------------------------------------------
// Memory
// ---------------------------------------------------------------------------

/// The budget is half of the memory, rounded down, as long as that is counted exactly.
pub proof fn the_budget_is_half_of_the_memory(total: nat)
    requires
        total < 0x20_0000_0000_0000,
    ensures
        2 * memory::budget_of(total) <= total < 2 * memory::budget_of(total) + 2,
{
    text_laws::lemma_exact_double(total);
}

/// A claim is what was asked for, held to the budget.
pub proof fn a_claim_is_what_was_asked_for_within_the_budget(budget: nat, bytes: nat)
    ensures
        memory::claim(budget, bytes) <= bytes,
        memory::claim(budget, bytes) <= budget,
        memory::claim(budget, bytes) == bytes || memory::claim(budget, bytes) == budget,
{
}

/// A request waits exactly where something is in use and both together do not fit.
pub proof fn a_request_waits_where_it_does_not_fit(used: nat, budget: nat, bytes: nat)
    requires
        0 < bytes <= budget,
    ensures
        memory::must_wait(used, budget, bytes) <==> used > 0 && used + bytes > budget,
        memory::must_wait(used, budget, budget + bytes) <==> used > 0,
{
}

/// What is given back is free again, and no more than was in use.
pub proof fn what_is_given_back_is_free(used: nat, held: nat)
    ensures
        held <= used ==> memory::after_release(used, held) + held == used,
        held > used ==> memory::after_release(used, held) == 0,
{
}

/// An allocation is refused exactly where its bytes are more than half of the memory; where the
/// memory is not known, none is.
pub proof fn an_allocation_is_refused_where_it_is_too_large(
    elements: usize,
    size: usize,
    what: &str,
    total: u64,
    known: Result<(), String>,
    unknown: Result<(), String>,
)
    requires
        call_ensures(memory::check_alloc, (elements, size, what, Some(total)), known),
        call_ensures(memory::check_alloc, (elements, size, what, None), unknown),
        total < 0x20_0000_0000_0000,
    ensures
        unknown is Ok,
        known is Err <==> 2 * (elements * size) > total,
        known is Err ==> text::contains(known->Err_0@, what@),
{
    text_laws::lemma_exact_double(total as nat);
    let limit: nat = memory::budget_of(total as nat);
    let bytes: nat = memory::saturated_bytes(elements as nat, size as nat);
    assert(elements as nat * size as nat == elements * size);
    if known is Err {
        let a: Seq<char> = "this file needs "@ + memory::gb(bytes) + " GB for "@;
        let b: Seq<char> = " alone, more than the "@ + memory::gb(limit)
            + " GB budget (50% of system RAM). Process it without Automixer, or split it into shorter takes."@;
        text_laws::lemma_found_between(a, what@, b);
        assert(a + what@ + b =~= memory::too_large_text(bytes, what@, limit));
    }
}

/// What a file takes in memory: 10 bytes for each sample, 14 with the dereverb, for whole seconds;
/// nothing where the duration is not known.
pub proof fn what_a_file_takes_in_memory(secs: nat, sr: u32, dfn3: bool)
    requires
        0 < secs < 0x100_0000,
        secs * sr < 0x100_0000_0000,
    ensures
        memory::footprint(Some(single::whole(secs as int)), sr, dfn3) == secs * sr * (if dfn3 {
            14int
        } else {
            10int
        }),
        memory::footprint(None, sr, dfn3) == 0,
{
    let u: nat = pow2(149);
    lemma_pow2_pos(149);
    exact::lemma_whole_magnitude(secs as int);
    let w: nat = single::whole(secs as int).magnitude();
    let s: nat = sr as nat;
    let k: nat = secs * s;
    assert(w > 0) by (nonlinear_arith)
        requires
            w == secs * u,
            secs > 0,
            u > 0,
    ;
    assert(w * s == k * u) by (nonlinear_arith)
        requires
            w == secs * u,
            k == secs * s,
    ;
    lemma_double_keeps(k);
    let f: nat = (2 * memory::weight_in_halves(dfn3)) as nat;
    let n: nat = k * f;
    assert((k * u) * f == n * u) by (nonlinear_arith)
        requires
            n == k * f,
    ;
    assert(n < 0x20_0000_0000_0000) by (nonlinear_arith)
        requires
            n == k * f,
            k < 0x100_0000_0000,
            f <= 14,
    ;
    lemma_double_keeps(n);
    assert((n * u) / u == n) by {
        vstd::arithmetic::div_mod::lemma_div_multiples_vanish(n as int, u as int);
        assert(u * n == n * u) by (nonlinear_arith);
    }
    assert(secs * sr * (f as int) == n);
}

proof fn lemma_double_keeps(n: nat)
    requires
        n < 0x20_0000_0000_0000,
    ensures
        double::at_double(n * pow2(149)) == n * pow2(149),
{
    assert(pow2(53) == 0x20_0000_0000_0000) by {
        lemma2_to64_rest();
    }
    crate::rounding::lemma_nearest_keeps(n, 149, 1, 53);
    assert((n * pow2(149)) * 1 == n * pow2(149));
}

/// Rounding to a double is off by one part in 2^53 at most.
proof fn lemma_double_close(n: nat)
    ensures
        0x20_0000_0000_0000 * double::at_double(n) <= 0x20_0000_0000_0000 * n + n,
        0x20_0000_0000_0000 * n <= 0x20_0000_0000_0000 * double::at_double(n) + n,
{
    assert(pow2(53) == 0x20_0000_0000_0000) by {
        lemma2_to64_rest();
    }
    if n < 0x20_0000_0000_0000 {
        text_laws::lemma_exact_double(n);
    } else {
        assert(pow2(53) * 1 <= n);
        crate::rounding::lemma_nearest_close(n, 1, 53);
        assert(double::at_double(n) * 1 == double::at_double(n));
    }
}

/// Whatever the duration, the memory for a file is in proportion to it and to the sample rate, but
/// for the roundings on the way, and rounded down to whole bytes.
pub proof fn memory_is_in_proportion_to_the_duration(secs: Single, sr: u32, dfn3: bool)
    requires
        secs.finite(),
        !secs.negative(),
        secs.magnitude() > 0,
        secs.magnitude() * sr < 0x100_0000_0000_0000 * pow2(149),
    ensures
        ({
            let f: int = if dfn3 {
                14
            } else {
                10
            };
            let bytes = memory::footprint(Some(secs), sr, dfn3);
            let exact = secs.magnitude() * sr * f;
            &&& 0x8_0000_0000_0000 * (bytes * pow2(149)) <= 0x8_0000_0000_0000 * exact + exact
            &&& 0x8_0000_0000_0000 * exact <= 0x8_0000_0000_0000 * ((bytes + 1) * pow2(149)) + exact
        }),
{
    let u: nat = pow2(149);
    lemma_pow2_pos(149);
    let s: nat = sr as nat;
    let n: nat = secs.magnitude() * s;
    lemma_double_close(n);
    let a: nat = double::at_double(n);
    let f: nat = (2 * memory::weight_in_halves(dfn3)) as nat;
    let af: nat = a * f;
    let nf: nat = n * f;
    lemma_double_close(af);
    let b: nat = double::at_double(af);
    assert(0x20_0000_0000_0000 * af <= 0x20_0000_0000_0000 * nf + nf && 0x20_0000_0000_0000 * nf
        <= 0x20_0000_0000_0000 * af + nf) by (nonlinear_arith)
        requires
            0x20_0000_0000_0000 * a <= 0x20_0000_0000_0000 * n + n,
            0x20_0000_0000_0000 * n <= 0x20_0000_0000_0000 * a + n,
            af == a * f,
            nf == n * f,
    ;
    let w: nat = b / u;
    vstd::arithmetic::div_mod::lemma_fundamental_div_mod(b as int, u as int);
    vstd::arithmetic::div_mod::lemma_mod_bound(b as int, u as int);
    let wu: nat = w * u;
    assert(u * w == wu) by (nonlinear_arith)
        requires
            wu == w * u,
    ;
    assert(wu <= b < wu + u);
    assert((w + 1) * u == wu + u) by (nonlinear_arith)
        requires
            wu == w * u,
    ;
    assert(nf <= 0xE00_0000_0000_0000 * u) by (nonlinear_arith)
        requires
            nf == n * f,
            n < 0x100_0000_0000_0000 * u,
            f <= 14,
    ;
    assert(b <= 2 * nf);
    assert(w <= 0x1C00_0000_0000_0000) by (nonlinear_arith)
        requires
            wu == w * u,
            wu <= b,
            b <= 0x1C00_0000_0000_0000 * u,
            u > 0,
    ;
    assert(secs.magnitude() * sr * (f as int) == nf);
}

/// A duration that is none takes no memory: one that is not positive, not finite or not a number.
pub proof fn no_duration_takes_no_memory(secs: Single, sr: u32, dfn3: bool)
    requires
        !secs.finite() || secs.value() <= 0,
    ensures
        memory::footprint(Some(secs), sr, dfn3) == 0,
{
}

/// The stages take 3.5 times the samples with the dereverb and 2.5 times without, which is the
/// weight that the memory for a file goes by, at 4 bytes a sample.
pub proof fn the_weight_of_the_stages(with_it: Single, without: Single)
    requires
        call_ensures(memory::dsp_weight, (true,), with_it),
        call_ensures(memory::dsp_weight, (false,), without),
    ensures
        with_it == single::ratio(7, 2),
        without == single::ratio(5, 2),
        4 * memory::weight_in_halves(true) == 2 * 14,
        4 * memory::weight_in_halves(false) == 2 * 10,
{
}

/// The memory of a machine is its pages times their size.
pub proof fn the_memory_is_pages_times_size(pages: i64, size: i64, r: Option<u64>)
    requires
        call_ensures(memory::total_physical_memory, (pages, size), r),
        pages > 0 && size > 0 ==> pages * size <= u64::MAX,
    ensures
        r is Some <==> pages > 0 && size > 0,
        r matches Some(t) ==> t == pages * size,
{
    if pages > 0 && size > 0 {
        assert(pages * size >= 0) by (nonlinear_arith)
            requires
                pages > 0,
                size > 0,
        ;
    }
}

} // verus!
