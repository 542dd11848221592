//! The registry of running child processes, through which they can be terminated from outside,
//! and the names of scratch directories.

use std::collections::HashMap;
use vstd::prelude::*;

use crate::text;

verus! {

/// The children that are running, each with the token by which it can be killed.
pub struct Registry {
    pub next_id: u64,
    pub live: HashMap<u64, u64>,
    /// Set by [`terminate_all`]: a child that registers now is to be killed on the spot.
    pub terminating: bool,
}

/// What stands for a child in the registry; `None` for one that was never let in.
pub struct ChildHandle {
    pub id: Option<u64>,
}

/// What a [`Registry`] stands for.
pub struct RegistryModel {
    pub next_id: nat,
    pub live: Map<u64, u64>,
    pub terminating: bool,
}

impl View for Registry {
    type V = RegistryModel;

    open spec fn view(&self) -> RegistryModel {
        RegistryModel {
            next_id: self.next_id as nat,
            live: self.live@,
            terminating: self.terminating,
        }
    }
}

impl RegistryModel {
    /// Ids are handed out once: those in use are below the next one.
    pub open spec fn wf(self) -> bool {
        &&& forall|id: u64| #[trigger] self.live.contains_key(id) ==> id < self.next_id
        &&& self.live.dom().finite()
    }
}

/// A child registers: the registry afterwards, and the id of the child. While the registry is
/// terminating the child is not let in.
pub open spec fn registered(m: RegistryModel, token: u64) -> (RegistryModel, Option<u64>) {
    if m.terminating {
        (m, None)
    } else {
        let id = m.next_id as u64;
        (
            RegistryModel { next_id: m.next_id + 1, live: m.live.insert(id, token), ..m },
            Some(id),
        )
    }
}

/// A handle is given up.
pub open spec fn deregistered(m: RegistryModel, id: Option<u64>) -> RegistryModel {
    match id {
        Some(id) => RegistryModel { live: m.live.remove(id), ..m },
        None => m,
    }
}

/// New children are barred.
pub open spec fn terminated(m: RegistryModel) -> RegistryModel {
    RegistryModel { terminating: true, ..m }
}

/// New children are let in again.
pub open spec fn resumed(m: RegistryModel) -> RegistryModel {
    RegistryModel { terminating: false, ..m }
}

impl Registry {
    /// A registry without children.
    pub fn new() -> (r: Registry)
        ensures
            r@.wf(),
            r@ == (RegistryModel { next_id: 0, live: Map::empty(), terminating: false }),
    {
        broadcast use vstd::std_specs::hash::group_hash_axioms;

        Registry { next_id: 0, live: HashMap::new(), terminating: false }
    }

    /// The number of children that are running.
    pub fn live_count(&self) -> (n: usize)
        requires
            self@.wf(),
        ensures
            n == self@.live.len(),
    {
        broadcast use vstd::std_specs::hash::group_hash_axioms;

        self.live.len()
    }
}

/// Registers a running child. While the registry is terminating it is not let in: its handle
/// stands for nothing, and the caller must kill it.
pub fn register(r: &mut Registry, token: u64) -> (h: ChildHandle)
    requires
        old(r)@.wf(),
        old(r).next_id < u64::MAX,
    ensures
        final(r)@.wf(),
        (final(r)@, h.id) == registered(old(r)@, token),
{
    broadcast use vstd::std_specs::hash::group_hash_axioms;

    if r.terminating {
        return ChildHandle { id: None };
    }
    let id: u64 = r.next_id;
    r.next_id = id + 1;
    let _ = r.live.insert(id, token);
    ChildHandle { id: Some(id) }
}

/// Takes a child out of the registry, once its handle is given up.
pub fn deregister(r: &mut Registry, h: ChildHandle)
    requires
        old(r)@.wf(),
    ensures
        final(r)@.wf(),
        final(r)@ == deregistered(old(r)@, h.id),
{
    broadcast use vstd::std_specs::hash::group_hash_axioms;

    match h.id {
        Some(id) => {
            let _ = r.live.remove(&id);
            assert(old(r).live@.remove(id).dom() =~= old(r).live@.dom().remove(id));
        },
        None => {},
    }
}

/// Bars new children, and lists the tokens of all that are running, to be killed.
pub fn terminate_all(r: &mut Registry) -> (tokens: Vec<u64>)
    requires
        old(r)@.wf(),
    ensures
        final(r)@.wf(),
        final(r)@ == terminated(old(r)@),
        tokens@.to_set() == old(r)@.live.values(),
        tokens@.len() == old(r)@.live.dom().len(),
{
    broadcast use vstd::std_specs::hash::group_hash_axioms;

    r.terminating = true;
    let ghost all: Seq<u64> = vstd::std_specs::iter::IteratorSpec::remaining(
        &vstd::std_specs::hash::spec_values_iter(&r.live),
    ).unref();
    let mut tokens: Vec<u64> = Vec::new();
    for token in it: r.live.values()
        invariant
            it.seq().unref() == all,
            all.to_set() == r.live@.values(),
            all.len() == r.live@.dom().len(),
            tokens@ == all.take(it.index() as int),
    {
        tokens.push(*token);
        assert(all.take(it.index() as int + 1) == all.take(it.index() as int).push(*token));
    }
    assert(all.take(all.len() as int) == all);
    tokens
}

/// Lets new children in again.
pub fn resume(r: &mut Registry)
    requires
        old(r)@.wf(),
    ensures
        final(r)@.wf(),
        final(r)@ == resumed(old(r)@),
{
    r.terminating = false;
}

// ---------------------------------------------------------------------------
// Scratch directories
// ---------------------------------------------------------------------------

/// The name of the scratch directory of the instance with this process id.
pub open spec fn scratch_name(pid: nat) -> Seq<char> {
    "vocan-scratch-"@ + text::decimal(pid)
}

/// The name of the scratch directory of the instance with this process id.
pub fn scratch_prefix(pid: u32) -> (r: String)
    ensures
        r@ == scratch_name(pid as nat),
{
    let id: String = text::decimal_text(pid as u128);
    text::joined("vocan-scratch-", id.as_str())
}

/// `s` starts with `prefix`.
pub open spec fn starts_with(s: Seq<char>, prefix: Seq<char>) -> bool {
    prefix.len() <= s.len() && s.take(prefix.len() as int) == prefix
}

/// A directory is swept away if it is a scratch directory of another instance and has not been
/// touched for more than a day. One whose age is not known stays.
pub open spec fn sweepable(name: Seq<char>, own: Seq<char>, age: Option<(u64, u32)>) -> bool {
    &&& starts_with(name, "vocan-scratch-"@)
    &&& name != own
    &&& match age {
        Some((secs, nanos)) => secs > 86400 || (secs == 86400 && nanos > 0),
        None => false,
    }
}

/// Whether `s` starts with `prefix`.
pub fn begins_with(s: &[char], prefix: &[char]) -> (r: bool)
    ensures
        r == starts_with(s@, prefix@),
{
    if prefix.len() > s.len() {
        return false;
    }
    for i in 0..prefix.len()
        invariant
            prefix@.len() <= s@.len(),
            forall|j: int| 0 <= j < i ==> s@[j] == prefix@[j],
    {
        if s[i] != prefix[i] {
            assert(s@.take(prefix@.len() as int)[i as int] == s@[i as int]);
            return false;
        }
    }
    assert(s@.take(prefix@.len() as int) == prefix@);
    true
}

/// Whether a directory in the temporary directory is to be removed. The age is given as seconds
/// and nanoseconds.
pub fn should_sweep(name: &str, own: &str, age: Option<(u64, u32)>) -> (r: bool)
    ensures
        r == sweepable(name@, own@, age),
{
    let chars: Vec<char> = text::chars_of(name);
    let prefix: Vec<char> = text::chars_of("vocan-scratch-");
    if !begins_with(chars.as_slice(), prefix.as_slice()) || text::same(name, own) {
        return false;
    }
    match age {
        Some((secs, nanos)) => secs > 86400 || (secs == 86400 && nanos > 0),
        None => false,
    }
}

// ---------------------------------------------------------------------------
// Laws
// ---------------------------------------------------------------------------

/// A child that is let in is tracked as one more, and giving its handle up takes it and no other
/// out again. One that is not let in changes nothing, and neither does giving its handle up.
pub proof fn deregistering_undoes_registering(m: RegistryModel, token: u64)
    requires
        m.wf(),
        m.next_id <= u64::MAX,
    ensures
        ({
            let (after, id) = registered(m, token);
            &&& after.wf()
            &&& deregistered(after, id).live == m.live
            &&& deregistered(after, id).terminating == m.terminating
            &&& m.terminating ==> id is None && after == m && deregistered(after, id) == m
            &&& !m.terminating ==> {
                &&& id is Some
                &&& !m.live.contains_key(id->0)
                &&& after.live == m.live.insert(id->0, token)
                &&& after.live.len() == m.live.len() + 1
                &&& deregistered(after, id).live.len() == m.live.len()
            }
        }),
{
    if !m.terminating {
        let id: u64 = m.next_id as u64;
        assert(!m.live.contains_key(id));
        assert(m.live.insert(id, token).dom() =~= m.live.dom().insert(id));
        assert(m.live.insert(id, token).remove(id) =~= m.live);
    }
}

/// What can happen to the registry between stopping a run and starting another.
pub enum RegistryStep {
    Register(u64),
    Deregister(Option<u64>),
}

/// The registry after one step.
pub open spec fn stepped(m: RegistryModel, s: RegistryStep) -> RegistryModel {
    match s {
        RegistryStep::Register(token) => registered(m, token).0,
        RegistryStep::Deregister(id) => deregistered(m, id),
    }
}

/// The registry after the steps, one after the other.
pub open spec fn after_steps(m: RegistryModel, steps: Seq<RegistryStep>) -> RegistryModel
    decreases steps.len(),
{
    if steps.len() == 0 {
        m
    } else {
        stepped(after_steps(m, steps.drop_last()), steps.last())
    }
}

/// Once all are terminated no child gets in, whatever happens, until children are let in again;
/// and each that was running stays tracked, with its token, until its own handle is given up.
pub proof fn children_are_barred_until_resumed(
    m: RegistryModel,
    steps: Seq<RegistryStep>,
    token: u64,
)
    ensures
        ({
            let after = after_steps(terminated(m), steps);
            &&& after.terminating
            &&& after.next_id == m.next_id
            &&& after.live.submap_of(m.live)
            &&& forall|id: u64| #[trigger]
                m.live.contains_key(id) && !steps.contains(RegistryStep::Deregister(Some(id)))
                    ==> after.live.contains_key(id)
            &&& registered(after, token) == (after, None::<u64>)
            &&& resumed(after).live == after.live
            &&& registered(resumed(after), token).1 is Some
        }),
    decreases steps.len(),
{
    if steps.len() > 0 {
        let head: Seq<RegistryStep> = steps.drop_last();
        children_are_barred_until_resumed(m, head, token);
        assert forall|id: u64| #[trigger]
            m.live.contains_key(id) && !steps.contains(
                RegistryStep::Deregister(Some(id)),
            ) implies after_steps(terminated(m), steps).live.contains_key(id) by {
            if head.contains(RegistryStep::Deregister(Some(id))) {
                let k: int = choose|k: int|
                    0 <= k < head.len() && head[k] == RegistryStep::Deregister(Some(id));
                assert(steps[k] == head[k]);
            }
            assert(steps[steps.len() - 1] == steps.last());
        }
    }
}

/// An instance never sweeps its own directory away.
pub proof fn own_scratch_directory_stays(own: Seq<char>, age: Option<(u64, u32)>)
    ensures
        !sweepable(own, own, age),
{
}

} // verus!
