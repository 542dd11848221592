//! Memory budgeting for the stages that hold a whole file in memory.
//!
//! Permits are weighted by a file's estimated footprint, so short files never wait; what is
//! prevented is several files that each fit but together do not.

use vstd::arithmetic::div_mod::*;
use vstd::arithmetic::power2::*;
use vstd::prelude::*;

use crate::double;
use crate::rounding;
use crate::single;
use crate::single::Single;

verus! {

/// Copies of the signal that are alive at the peak, in halves.
pub open spec fn weight_in_halves(dfn3: bool) -> int {
    if dfn3 {
        7
    } else {
        5
    }
}

/// Peak in-memory copies of the signal, as a multiple of its decoded size.
pub fn dsp_weight(dfn3_enabled: bool) -> (r: Single)
    ensures
        r == single::ratio(weight_in_halves(dfn3_enabled), 2),
{
    if dfn3_enabled {
        Single::of_ratio(7, 2)
    } else {
        Single::of_ratio(5, 2)
    }
}

/// Total physical memory in bytes, from the number of pages and their size; `None` where the
/// platform does not give both.
pub fn total_physical_memory(pages: i64, page_size: i64) -> (r: Option<u64>)
    requires
        pages > 0 && page_size > 0 ==> pages * page_size <= u64::MAX,
    ensures
        r == if pages > 0 && page_size > 0 {
            Some((pages * page_size) as u64)
        } else {
            None
        },
{
    if pages > 0 && page_size > 0 {
        Some(pages as u64 * page_size as u64)
    } else {
        None
    }
}

/// Half of the memory, computed at double precision.
pub open spec fn budget_of(total: nat) -> nat {
    double::at_double(total) / 2
}

fn half(total: u64) -> (r: u64)
    ensures
        r == budget_of(total as nat),
{
    let v: u128 = double::to_double(total as u128);
    proof {
        // The largest total is 2^64 - 1, which rounds to 2^64 at most.
        lemma2_to64();
        lemma_rounds_within_power(total as nat);
    }
    (v / 2) as u64
}

/// What has 64 bits is at most `2^64` after rounding.
proof fn lemma_rounds_within_power(n: nat)
    requires
        n <= u64::MAX,
    ensures
        double::at_double(n) <= 0x1_0000_0000_0000_0000,
{
    lemma2_to64();
    double::lemma_rounded_bound(n, 64);
}

/// A number of bytes as gigabytes with one decimal place.
pub open spec fn gb(bytes: nat) -> Seq<char> {
    double::gigabytes(bytes, 1)
}

/// What is said of an allocation that is larger than the whole budget.
pub open spec fn too_large_text(bytes: nat, what: Seq<char>, limit: nat) -> Seq<char> {
    "this file needs "@ + gb(bytes) + " GB for "@ + what + " alone, more than the "@ + gb(limit)
        + " GB budget (50% of system RAM). Process it without Automixer, or split it into shorter takes."@
}

/// `elements` times `element_size`, held at the largest 64-bit number.
pub open spec fn saturated_bytes(elements: nat, element_size: nat) -> nat {
    if elements * element_size > u64::MAX {
        u64::MAX as nat
    } else {
        elements * element_size
    }
}

/// Rejects an allocation that is larger than the whole budget, before it is attempted. Anything
/// smaller is left to the allocator, and so is everything where the memory is not known.
pub fn check_alloc(elements: usize, element_size: usize, what: &str, total: Option<u64>) -> (r:
    Result<(), String>)
    ensures
        ({
            let bytes = saturated_bytes(elements as nat, element_size as nat);
            match total {
                None => r is Ok,
                Some(t) => {
                    &&& r is Err <==> bytes > budget_of(t as nat)
                    &&& r is Err ==> r->Err_0@ == too_large_text(
                        bytes,
                        what@,
                        budget_of(t as nat),
                    )
                },
            }
        }),
{
    let wide: u128 = {
        assert(elements * element_size <= u64::MAX * u64::MAX) by (nonlinear_arith)
            requires
                elements <= u64::MAX,
                element_size <= u64::MAX,
        ;
        elements as u128 * element_size as u128
    };
    let bytes: u64 = if wide > u64::MAX as u128 {
        u64::MAX
    } else {
        wide as u64
    };
    match total {
        None => Ok(()),
        Some(t) => {
            let limit: u64 = half(t);
            if bytes > limit {
                let need: String = double::gigabytes_text(bytes as u128, 1);
                let have: String = double::gigabytes_text(limit as u128, 1);
                let mut m: String = "this file needs ".to_owned();
                m.append(need.as_str());
                m.append(" GB for ");
                m.append(what);
                m.append(" alone, more than the ");
                m.append(have.as_str());
                m.append(
                    " GB budget (50% of system RAM). Process it without Automixer, or split it into shorter takes.",
                );
                Err(m)
            } else {
                Ok(())
            }
        },
    }
}

// ---------------------------------------------------------------------------
// Admission
// ---------------------------------------------------------------------------

/// Weighted admission over a byte budget. A budget of zero lets everything pass.
pub struct MemoryGate {
    in_use: u64,
    budget: u64,
}

/// What one file holds of the budget.
pub struct MemoryPermit {
    bytes: u64,
}

impl MemoryPermit {
    /// The bytes that the permit stands for.
    pub closed spec fn held(self) -> nat {
        self.bytes as nat
    }
}

/// The answer to a request for memory.
pub enum Admission {
    /// The memory is reserved until the permit is released.
    Granted(MemoryPermit),
    /// There is no room now; the text tells the user why the file waits.
    Wait(String),
}

/// What is said of a file that has to wait.
pub open spec fn wait_text(want: nat, in_use: nat, budget: nat) -> Seq<char> {
    "Waiting for memory: this file needs "@ + gb(want)
        + " GB, and other files in flight are already using "@ + gb(in_use) + " GB of the "@ + gb(
        budget,
    )
        + " GB budget. Throughput drops until they finish -- this is not a hang."@
}

/// The part of the budget that a request for `bytes` takes: never more than all of it.
pub open spec fn claim(budget: nat, bytes: nat) -> nat {
    if bytes < budget {
        bytes
    } else {
        budget
    }
}

/// A request for `bytes` has to wait: something is running, and there is no room beside it.
pub open spec fn must_wait(in_use: nat, budget: nat, bytes: nat) -> bool {
    budget > 0 && bytes > 0 && in_use > 0 && in_use + claim(budget, bytes) > budget
}

/// What is reserved once `held` bytes of `used` are given back.
pub open spec fn after_release(used: nat, held: nat) -> nat {
    if held <= used {
        (used - held) as nat
    } else {
        0
    }
}

impl MemoryGate {
    #[verifier::type_invariant]
    spec fn within_budget(self) -> bool {
        self.in_use <= self.budget
    }

    /// The bytes that are reserved.
    pub closed spec fn used(self) -> nat {
        self.in_use as nat
    }

    /// The bytes that may be reserved in all.
    pub closed spec fn limit(self) -> nat {
        self.budget as nat
    }

    /// A gate with nothing reserved.
    pub fn new(budget: u64) -> (g: MemoryGate)
        ensures
            g.used() == 0,
            g.limit() == budget,
    {
        MemoryGate { in_use: 0, budget }
    }

    /// Asks for `bytes`.
    ///
    /// A request larger than the entire budget is clamped rather than refused, so such a file
    /// runs alone. With nothing else running every request is granted.
    pub fn acquire(&mut self, bytes: u64) -> (r: Admission)
        ensures
            old(self).used() <= old(self).limit(),
            final(self).used() <= final(self).limit(),
            final(self).limit() == old(self).limit(),
            r is Wait <==> must_wait(old(self).used(), old(self).limit(), bytes as nat),
            match r {
                Admission::Wait(t) => {
                    &&& final(self).used() == old(self).used()
                    &&& t@ == wait_text(
                        claim(old(self).limit(), bytes as nat),
                        old(self).used(),
                        old(self).limit(),
                    )
                },
                Admission::Granted(p) => {
                    &&& p.held() == claim(old(self).limit(), bytes as nat)
                    &&& final(self).used() == old(self).used() + p.held()
                },
            },
    {
        proof {
            use_type_invariant(&*self);
        }
        if self.budget == 0 || bytes == 0 {
            return Admission::Granted(MemoryPermit { bytes: 0 });
        }
        let want: u64 = if bytes < self.budget {
            bytes
        } else {
            self.budget
        };
        if self.in_use > 0 && want > self.budget - self.in_use {
            let need: String = double::gigabytes_text(want as u128, 1);
            let used: String = double::gigabytes_text(self.in_use as u128, 1);
            let all: String = double::gigabytes_text(self.budget as u128, 1);
            let mut m: String = "Waiting for memory: this file needs ".to_owned();
            m.append(need.as_str());
            m.append(" GB, and other files in flight are already using ");
            m.append(used.as_str());
            m.append(" GB of the ");
            m.append(all.as_str());
            m.append(" GB budget. Throughput drops until they finish -- this is not a hang.");
            return Admission::Wait(m);
        }
        self.in_use = self.in_use + want;
        Admission::Granted(MemoryPermit { bytes: want })
    }

    /// Gives back what the permit holds.
    pub fn release(&mut self, permit: MemoryPermit)
        ensures
            final(self).limit() == old(self).limit(),
            final(self).used() == after_release(old(self).used(), permit.held()),
    {
        proof {
            use_type_invariant(&*self);
        }
        self.in_use = if permit.bytes <= self.in_use {
            self.in_use - permit.bytes
        } else {
            0
        };
    }

    /// The bytes that are reserved.
    pub fn in_use(&self) -> (r: u64)
        ensures
            r == self.used(),
    {
        self.in_use
    }
}

/// One file's request for memory, from the first attempt until it is granted.
pub struct MemoryRequest {
    bytes: u64,
    told: bool,
}

/// The answer to one attempt of a request.
pub enum Attempt {
    /// The memory is reserved until the permit is released.
    Granted(MemoryPermit),
    /// There is no room now. The text, for the user, comes with the first such answer alone.
    Wait(Option<String>),
}

impl MemoryRequest {
    /// The bytes that are asked for.
    pub closed spec fn wanted(self) -> nat {
        self.bytes as nat
    }

    /// The user has been told that the file waits.
    pub closed spec fn told(self) -> bool {
        self.told
    }

    /// A request that has not been made yet.
    pub fn new(bytes: u64) -> (r: MemoryRequest)
        ensures
            r.wanted() == bytes,
            !r.told(),
    {
        MemoryRequest { bytes, told: false }
    }

    /// Makes one attempt.
    pub fn attempt(&mut self, gate: &mut MemoryGate) -> (r: Attempt)
        ensures
            final(self).wanted() == old(self).wanted(),
            old(gate).used() <= old(gate).limit(),
            final(gate).used() <= final(gate).limit(),
            final(gate).limit() == old(gate).limit(),
            r is Wait <==> must_wait(old(gate).used(), old(gate).limit(), old(self).wanted()),
            final(self).told() == (old(self).told() || r is Wait),
            match r {
                Attempt::Wait(notice) => {
                    &&& final(gate).used() == old(gate).used()
                    &&& notice is Some <==> !old(self).told()
                    &&& notice matches Some(t) ==> t@ == wait_text(
                        claim(old(gate).limit(), old(self).wanted()),
                        old(gate).used(),
                        old(gate).limit(),
                    )
                },
                Attempt::Granted(p) => {
                    &&& p.held() == claim(old(gate).limit(), old(self).wanted())
                    &&& final(gate).used() == old(gate).used() + p.held()
                },
            },
    {
        match gate.acquire(self.bytes) {
            Admission::Granted(p) => Attempt::Granted(p),
            Admission::Wait(t) => {
                if self.told {
                    Attempt::Wait(None)
                } else {
                    self.told = true;
                    Attempt::Wait(Some(t))
                }
            },
        }
    }
}

/// The memory gate of a machine with this much memory; an unknown amount makes it a pass-through.
pub fn gate(total: Option<u64>) -> (g: MemoryGate)
    ensures
        g.used() == 0,
        g.limit() == match total {
            Some(t) => budget_of(t as nat),
            None => 0,
        },
{
    match total {
        Some(t) => MemoryGate::new(half(t)),
        None => MemoryGate::new(0),
    }
}

// ---------------------------------------------------------------------------
// Footprint
// ---------------------------------------------------------------------------

/// The bytes for `secs` seconds at `sr` samples a second: four bytes a sample, times the weight,
/// each product taken at double precision, and cut off to a whole number. A duration that is not
/// a positive finite number counts as nothing.
pub open spec fn footprint(secs: Option<Single>, sr: u32, dfn3: bool) -> nat {
    match secs {
        Some(s) => if s.finite() && !s.negative() && s.magnitude() > 0 {
            let samples = double::at_double(s.magnitude() * sr as nat);
            let bytes = double::at_double(samples * (2 * weight_in_halves(dfn3)) as nat);
            let whole = bytes / pow2(149);
            if whole > u64::MAX {
                u64::MAX as nat
            } else {
                whole
            }
        } else {
            0
        },
        None => 0,
    }
}

/// Estimated peak bytes for running one file through the in-memory stages.
pub fn estimated_dsp_bytes(duration_secs: Option<Single>, sample_rate: u32, dfn3: bool) -> (r: u64)
    ensures
        r == footprint(duration_secs, sample_rate, dfn3),
{
    let secs: Single = match duration_secs {
        Some(s) => s,
        None => {
            return 0;
        },
    };
    if !secs.is_finite() || secs.is_negative() {
        return 0;
    }
    let (sig, shift): (u32, u32) = secs.parts();
    if sig == 0 {
        return 0;
    }
    let factor: u128 = if dfn3 {
        14
    } else {
        10
    };
    assert(sig * sample_rate < 0x100_0000 * 0x1_0000_0000) by (nonlinear_arith)
        requires
            sig < 0x100_0000,
            sample_rate < 0x1_0000_0000,
    ;
    let n1: u128 = sig as u128 * sample_rate as u128;
    let p1: u128 = double::to_double(n1);
    proof {
        lemma_power_of_56();
        double::lemma_rounded_bound(n1 as nat, 56);
    }
    let n2: u128 = p1 * factor;
    let q1: u128 = double::to_double(n2);
    proof {
        double::lemma_rounded_bound(n2 as nat, 60);
        lemma_footprint(secs.magnitude(), sig as nat, shift as nat, sample_rate as nat, factor as nat);
    }
    if shift >= 149 {
        let up: u32 = shift - 149;
        proof {
            lemma_pow2_adds(149, up as nat);
            lemma_pow2_pos(149);
            let w: nat = q1 as nat * pow2(up as nat);
            assert(q1 as nat * pow2(shift as nat) == w * pow2(149)) by (nonlinear_arith)
                requires
                    w == q1 as nat * pow2(up as nat),
                    pow2(shift as nat) == pow2(149) * pow2(up as nat),
            ;
            lemma_div_by_multiple(w as int, pow2(149) as int);
        }
        if up >= 64 {
            if q1 == 0 {
                assert(0 * pow2(up as nat) == 0);
                return 0;
            }
            proof {
                rounding::lemma_pow2_monotone(64, up as nat);
                lemma2_to64();
                assert(q1 * pow2(up as nat) > u64::MAX) by (nonlinear_arith)
                    requires
                        q1 >= 1,
                        pow2(up as nat) > u64::MAX,
                ;
            }
            return u64::MAX;
        }
        proof {
            rounding::lemma_pow2_monotone(up as nat, 64);
            lemma2_to64();
            assert(q1 * pow2(up as nat) <= 0x1000_0000_0000_0000 * 0x1_0000_0000_0000_0000)
                by (nonlinear_arith)
                requires
                    q1 <= 0x1000_0000_0000_0000,
                    0 <= pow2(up as nat) <= 0x1_0000_0000_0000_0000,
            ;
            single::lemma_shl_is_mul(q1, up as u128);
        }
        let v: u128 = q1 << (up as u128);
        if v > u64::MAX as u128 {
            u64::MAX
        } else {
            v as u64
        }
    } else {
        let down: u32 = 149 - shift;
        proof {
            lemma_pow2_adds(shift as nat, down as nat);
            lemma_pow2_pos(shift as nat);
            lemma_pow2_pos(down as nat);
            lemma_div_multiples_vanish_quotient(
                pow2(shift as nat) as int,
                q1 as int,
                pow2(down as nat) as int,
            );
            assert(q1 as nat * pow2(shift as nat) == pow2(shift as nat) * q1 as nat)
                by (nonlinear_arith);
        }
        if down > 64 {
            proof {
                rounding::lemma_pow2_monotone(64, down as nat);
                lemma2_to64();
                lemma_basic_div(q1 as int, pow2(down as nat) as int);
            }
            return 0;
        }
        proof {
            rounding::lemma_pow2_monotone(down as nat, 64);
            lemma2_to64();
            single::lemma_shl_is_mul(1, down as u128);
            lemma_div_is_ordered_by_denominator(q1 as int, 1, pow2(down as nat) as int);
        }
        let step: u128 = 1u128 << (down as u128);
        (q1 / step) as u64
    }
}

proof fn lemma_power_of_56()
    ensures
        pow2(56) == 0x100_0000_0000_0000,
        pow2(60) == 0x1000_0000_0000_0000,
{
    lemma2_to64();
    lemma_pow2_adds(32, 24);
    lemma_pow2_adds(32, 28);
    assert(0x1_0000_0000 * 0x100_0000 == 0x100_0000_0000_0000);
    assert(0x1_0000_0000 * 0x1000_0000 == 0x1000_0000_0000_0000);
}

/// The two roundings act on the significand alone.
proof fn lemma_footprint(mag: nat, sig: nat, shift: nat, sr: nat, factor: nat)
    requires
        mag == sig * pow2(shift),
    ensures
        double::at_double(double::at_double(mag * sr) * factor) == double::at_double(
            double::at_double(sig * sr) * factor,
        ) * pow2(shift),
{
    assert(mag * sr == (sig * sr) * pow2(shift)) by (nonlinear_arith)
        requires
            mag == sig * pow2(shift),
    ;
    double::lemma_scaled(sig * sr, shift);
    let p: nat = double::at_double(sig * sr);
    assert((p * pow2(shift)) * factor == (p * factor) * pow2(shift)) by (nonlinear_arith);
    double::lemma_scaled(p * factor, shift);
}

// ---------------------------------------------------------------------------
// Laws
// ---------------------------------------------------------------------------

/// With nothing else running, no request has to wait, whatever its size.
pub proof fn nothing_waits_for_an_idle_gate(budget: nat, bytes: nat)
    ensures
        !must_wait(0, budget, bytes),
{
}

/// Without a budget nothing waits and nothing is accounted for.
pub proof fn no_budget_is_a_pass_through(in_use: nat, bytes: nat)
    ensures
        !must_wait(in_use, 0, bytes),
        claim(0, bytes) == 0,
{
}

/// Giving a permit back leaves the accounts as they were before the permit was granted.
pub proof fn release_undoes_acquire(used: nat, budget: nat, bytes: nat)
    ensures
        after_release(used + claim(budget, bytes), claim(budget, bytes)) == used,
{
}

/// What is granted never takes the reservations past the budget.
pub proof fn grants_stay_within_the_budget(used: nat, budget: nat, bytes: nat)
    requires
        used <= budget,
        !must_wait(used, budget, bytes),
    ensures
        used + claim(budget, bytes) <= budget,
{
}

/// What the attempts of one request come to.
pub struct RequestRun {
    /// What the user was told, in order.
    pub notices: Seq<Seq<char>>,
    /// What is reserved once the request is granted; `None` while it waits.
    pub used: Option<nat>,
    /// How many attempts were made.
    pub attempts: nat,
}

/// The attempts of a request for `bytes`, with what is reserved when each of them is made, until
/// one is granted.
pub open spec fn request_run(budget: nat, bytes: nat, told: bool, uses: Seq<nat>) -> RequestRun
    decreases uses.len(),
{
    if uses.len() == 0 {
        RequestRun { notices: Seq::empty(), used: None, attempts: 0 }
    } else if must_wait(uses[0], budget, bytes) {
        let rest = request_run(budget, bytes, true, uses.skip(1));
        RequestRun {
            notices: (if told {
                Seq::empty()
            } else {
                seq![wait_text(claim(budget, bytes), uses[0], budget)]
            }) + rest.notices,
            used: rest.used,
            attempts: rest.attempts + 1,
        }
    } else {
        RequestRun {
            notices: Seq::empty(),
            used: Some(uses[0] + claim(budget, bytes)),
            attempts: 1,
        }
    }
}

proof fn lemma_request_run(budget: nat, bytes: nat, told: bool, uses: Seq<nat>)
    ensures
        ({
            let run = request_run(budget, bytes, told, uses);
            &&& told ==> run.notices == Seq::<Seq<char>>::empty()
            &&& run.attempts <= uses.len()
            &&& run.used is None ==> run.attempts == uses.len()
            &&& run.used matches Some(u) ==> {
                &&& run.attempts > 0
                &&& !must_wait(uses[run.attempts - 1], budget, bytes)
                &&& u == uses[run.attempts - 1] + claim(budget, bytes)
            }
            &&& forall|i: int|
                0 <= i < run.attempts - 1 ==> must_wait(#[trigger] uses[i], budget, bytes)
        }),
    decreases uses.len(),
{
    if uses.len() > 0 && must_wait(uses[0], budget, bytes) {
        lemma_request_run(budget, bytes, true, uses.skip(1));
        let run: RequestRun = request_run(budget, bytes, told, uses);
        let rest: RequestRun = request_run(budget, bytes, true, uses.skip(1));
        assert forall|i: int| 0 <= i < run.attempts - 1 implies must_wait(
            #[trigger] uses[i],
            budget,
            bytes,
        ) by {
            if i > 0 {
                assert(uses.skip(1)[i - 1] == uses[i]);
            }
        }
        if rest.used is Some {
            assert(uses.skip(1)[rest.attempts - 1] == uses[run.attempts - 1]);
        }
    }
}

/// A request that finds room is granted at once, and nobody is told anything. One that does not
/// tells the user once, before it waits, that this is not a hang, and is granted only when nothing
/// else is reserved or there is room beside it. Either way its own share, and no more, is added.
pub proof fn a_waiting_request_says_so_once(budget: nat, bytes: nat, uses: Seq<nat>)
    requires
        budget > 0,
        bytes > 0,
        uses.len() > 0,
    ensures
        ({
            let run = request_run(budget, bytes, false, uses);
            let want = claim(budget, bytes);
            &&& uses[0] == 0 || uses[0] + want <= budget ==> run.attempts == 1
                && run.notices.len() == 0 && run.used == Some(uses[0] + want)
            &&& !(uses[0] == 0 || uses[0] + want <= budget) ==> run.notices == seq![
                wait_text(want, uses[0], budget),
            ]
            &&& run.used matches Some(u) ==> {
                let last = uses[run.attempts - 1];
                (last == 0 || last + want <= budget) && u == last + want
            }
            &&& forall|i: int|
                0 <= i < run.attempts - 1 ==> #[trigger] uses[i] > 0 && uses[i] + want > budget
        }),
        exists|before: Seq<char>|
            #[trigger] (before + "not a hang."@) == wait_text(
                claim(budget, bytes),
                uses[0],
                budget,
            ),
{
    lemma_request_run(budget, bytes, false, uses);
    let want: nat = claim(budget, bytes);
    if must_wait(uses[0], budget, bytes) {
        lemma_request_run(budget, bytes, true, uses.skip(1));
        assert(request_run(budget, bytes, false, uses).notices =~= seq![
            wait_text(want, uses[0], budget),
        ]);
    }
    assert forall|i: int|
        0 <= i < request_run(budget, bytes, false, uses).attempts - 1 implies #[trigger] uses[i]
        > 0 && uses[i] + want > budget by {
        assert(must_wait(uses[i], budget, bytes));
    }
    reveal_strlit(" GB budget. Throughput drops until they finish -- this is not a hang.");
    reveal_strlit("not a hang.");
    let tail: Seq<char> = " GB budget. Throughput drops until they finish -- this is not a hang."@;
    let end: Seq<char> = "not a hang."@;
    let cut: int = tail.len() - end.len();
    assert(tail =~= tail.take(cut) + end);
    let t: Seq<char> = wait_text(want, uses[0], budget);
    let before: Seq<char> = t.take(t.len() - end.len());
    assert(before + end =~= t);
}

/// What happens to the accounts.
pub enum MemoryEvent {
    /// A request for so many bytes.
    Ask(nat),
    /// The permit with this index among the live ones is given back.
    GiveBack(int),
}

/// The accounts: what is reserved, and what each live permit holds, the oldest first.
pub struct Accounts {
    pub used: nat,
    pub live: Seq<nat>,
}

/// The accounts before any request.
pub open spec fn opened() -> Accounts {
    Accounts { used: 0, live: Seq::empty() }
}

/// The accounts after one event. A request that has to wait changes nothing.
pub open spec fn accounted(a: Accounts, budget: nat, e: MemoryEvent) -> Accounts {
    match e {
        MemoryEvent::Ask(bytes) => if must_wait(a.used, budget, bytes) {
            a
        } else {
            Accounts {
                used: a.used + claim(budget, bytes),
                live: a.live.push(claim(budget, bytes)),
            }
        },
        MemoryEvent::GiveBack(i) => Accounts {
            used: after_release(a.used, a.live[i]),
            live: a.live.remove(i),
        },
    }
}

/// The accounts after the events, one after the other.
pub open spec fn accounts_after(budget: nat, events: Seq<MemoryEvent>) -> Accounts
    decreases events.len(),
{
    if events.len() == 0 {
        opened()
    } else {
        accounted(accounts_after(budget, events.drop_last()), budget, events.last())
    }
}

/// Only live permits are given back.
pub open spec fn possible(budget: nat, events: Seq<MemoryEvent>) -> bool
    decreases events.len(),
{
    events.len() == 0 || {
        &&& possible(budget, events.drop_last())
        &&& match events.last() {
            MemoryEvent::Ask(_) => true,
            MemoryEvent::GiveBack(i) => 0 <= i < accounts_after(
                budget,
                events.drop_last(),
            ).live.len(),
        }
    }
}

/// What the permits hold together.
pub open spec fn total(live: Seq<nat>) -> nat
    decreases live.len(),
{
    if live.len() == 0 {
        0
    } else {
        total(live.drop_last()) + live.last()
    }
}

proof fn lemma_total_without(live: Seq<nat>, i: int)
    requires
        0 <= i < live.len(),
    ensures
        total(live) == total(live.remove(i)) + live[i],
    decreases live.len(),
{
    if i == live.len() - 1 {
        assert(live.remove(i) =~= live.drop_last());
    } else {
        lemma_total_without(live.drop_last(), i);
        assert(live.remove(i).drop_last() =~= live.drop_last().remove(i));
        assert(live.remove(i).last() == live.last());
    }
}

/// In every state that requests and returns can lead to, what is reserved is what the live
/// permits hold together, and it is within the budget. So a permit for the whole budget is alive
/// with no other that holds anything.
pub proof fn reservations_are_those_of_the_live_permits(budget: nat, events: Seq<MemoryEvent>)
    requires
        possible(budget, events),
    ensures
        ({
            let a = accounts_after(budget, events);
            &&& a.used == total(a.live)
            &&& a.used <= budget
            &&& forall|i: int, k: int|
                0 <= i < a.live.len() && 0 <= k < a.live.len() && i != k && #[trigger] a.live[i]
                    == budget ==> #[trigger] a.live[k] == 0
        }),
    decreases events.len(),
{
    let a: Accounts = accounts_after(budget, events);
    if events.len() > 0 {
        let before: Accounts = accounts_after(budget, events.drop_last());
        reservations_are_those_of_the_live_permits(budget, events.drop_last());
        match events.last() {
            MemoryEvent::Ask(bytes) => {
                if !must_wait(before.used, budget, bytes) {
                    grants_stay_within_the_budget(before.used, budget, bytes);
                    assert(a.live.drop_last() =~= before.live);
                }
            },
            MemoryEvent::GiveBack(i) => {
                lemma_total_without(before.live, i);
            },
        }
    }
    assert forall|i: int, k: int|
        0 <= i < a.live.len() && 0 <= k < a.live.len() && i != k && #[trigger] a.live[i]
            == budget implies #[trigger] a.live[k] == 0 by {
        lemma_total_without(a.live, i);
        let rest: Seq<nat> = a.live.remove(i);
        let m: int = if k < i {
            k
        } else {
            k - 1
        };
        assert(rest[m] == a.live[k]);
        lemma_total_without(rest, m);
    }
}

/// Requests that together fit in the budget do not wait for each other.
pub proof fn requests_that_fit_do_not_contend(budget: nat, a: nat, b: nat)
    requires
        a + b <= budget,
    ensures
        claim(budget, a) == a,
        !must_wait(claim(budget, a), budget, b),
{
}

/// A file whose length is not known asks for nothing.
pub proof fn an_unknown_duration_is_not_gated(sr: u32, dfn3: bool)
    ensures
        footprint(None, sr, dfn3) == 0,
{
}

} // verus!
