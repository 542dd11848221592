//! Command lines for FFmpeg.

use vstd::prelude::*;

verus! {

/// One argument of a command line.
#[derive(Debug, PartialEq)]
pub enum Arg {
    /// A literal argument.
    Text(String),
    /// The path of the file to convert.
    Input,
    /// The path of the temporary file with the samples that were processed in memory.
    Stored,
    /// The path of the file to write.
    Output,
}

/// What an [`Arg`] stands for.
pub enum ArgModel {
    Text(Seq<char>),
    Input,
    Stored,
    Output,
}

impl View for Arg {
    type V = ArgModel;

    open spec fn view(&self) -> ArgModel {
        match self {
            Arg::Text(t) => ArgModel::Text(t@),
            Arg::Input => ArgModel::Input,
            Arg::Stored => ArgModel::Stored,
            Arg::Output => ArgModel::Output,
        }
    }
}

/// What a command line reads.
#[derive(Clone, Copy, PartialEq, Eq, Debug, Structural)]
pub enum Source {
    /// The file to convert.
    Input,
    /// The temporary file with the samples that were processed in memory.
    Stored,
}

/// The argument that names the source.
pub open spec fn read_from(s: Source) -> ArgModel {
    match s {
        Source::Input => ArgModel::Input,
        Source::Stored => ArgModel::Stored,
    }
}

/// The command line reads from this source, and from nothing else.
pub open spec fn reads_only(cmd: Seq<ArgModel>, s: Source) -> bool {
    &&& cmd.contains(read_from(s))
    &&& forall|i: int|
        0 <= i < cmd.len() && (#[trigger] cmd[i] is Input || cmd[i] is Stored) ==> cmd[i]
            == read_from(s)
}

/// What the arguments stand for.
pub open spec fn model(args: Seq<Arg>) -> Seq<ArgModel> {
    args.map_values(|a: Arg| a@)
}

/// The argument with this text.
pub open spec fn word(t: Seq<char>) -> ArgModel {
    ArgModel::Text(t)
}

/// Appends an argument.
pub fn push(args: &mut Vec<Arg>, a: Arg)
    ensures
        model(final(args)@) == model(old(args)@).push(a@),
{
    args.push(a);
    assert(model(args@) == model(old(args)@).push(a@));
}

/// Appends a literal argument.
pub fn push_text(args: &mut Vec<Arg>, t: &str)
    ensures
        model(final(args)@) == model(old(args)@).push(word(t@)),
{
    push(args, Arg::Text(t.to_owned()));
}

/// Appends the argument that names the source.
pub fn push_source(args: &mut Vec<Arg>, s: Source)
    ensures
        model(final(args)@) == model(old(args)@).push(read_from(s)),
{
    match s {
        Source::Input => push(args, Arg::Input),
        Source::Stored => push(args, Arg::Stored),
    }
}

/// A command line without arguments.
pub fn empty() -> (args: Vec<Arg>)
    ensures
        model(args@) == Seq::<ArgModel>::empty(),
{
    let args: Vec<Arg> = Vec::new();
    assert(model(args@) == Seq::<ArgModel>::empty());
    args
}

} // verus!
