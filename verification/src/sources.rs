//! Turning sources into work: what is to be done about each thing that a
//! walk through a directory meets, and in which order.

use crate::analysis::AnalyzeSource;
use crate::units::reversed;
use std::path::PathBuf;
use vstd::prelude::*;

verus! {

/// What the walk through a path met at one place.
#[derive(Debug, Clone)]
pub enum WalkEntry {
    /// A regular file.
    File(PathBuf),
    /// Something that is no regular file, such as a directory.
    Other,
    /// A place that could not be read, with the reason.
    Unreadable(String),
}

/// One step of the work that a source gives rise to.
#[derive(Debug, Clone)]
pub enum Step {
    /// Hand this unit of work to the workers.
    Analyze(AnalyzeSource),
    /// Pass this message on to the caller.
    Message(String),
    /// Tell the caller that a source has been expanded.
    Increment,
}

/// How deep a walk goes: through the whole tree, or no further than what
/// lies directly in the directory.
pub open spec fn spec_walk_depth(recursive: bool) -> usize {
    if recursive {
        usize::MAX
    } else {
        1
    }
}

/// The steps for the first `upto` entries of a walk: a regular file is
/// analyzed, an unreadable place is reported and passed over, anything else
/// is passed over in silence.
pub open spec fn steps_upto(entries: Seq<WalkEntry>, upto: int) -> Seq<Step>
    decreases upto,
{
    if upto <= 0 {
        Seq::empty()
    } else {
        let before = steps_upto(entries, upto - 1);
        match entries[upto - 1] {
            WalkEntry::File(path) => before.push(Step::Analyze(AnalyzeSource::Path(path))),
            WalkEntry::Other => before,
            WalkEntry::Unreadable(reason) => before.push(Step::Message(reason)),
        }
    }
}

/// How deep the walk through a path is to go.
pub fn walk_depth(recursive: bool) -> (depth: usize)
    ensures
        depth == spec_walk_depth(recursive),
{
    if recursive {
        usize::MAX
    } else {
        1
    }
}

/// The steps for a source that is a text: the text is one unit of work,
/// and with it the source is expanded.
pub fn plan_content(content: String) -> (plan: Vec<Step>)
    ensures
        plan@ == seq![Step::Analyze(AnalyzeSource::Content(content)), Step::Increment],
{
    let mut plan: Vec<Step> = Vec::new();
    plan.push(Step::Analyze(AnalyzeSource::Content(content)));
    plan.push(Step::Increment);
    proof {
        assert(plan@ =~= seq![Step::Analyze(AnalyzeSource::Content(content)), Step::Increment]);
    }
    plan
}

/// The steps for a source that is a path, given what the walk through it
/// met: the steps for the entries in their order, and after them, once,
/// the signal that the source is expanded.
pub fn plan_walk(entries: Vec<WalkEntry>) -> (plan: Vec<Step>)
    ensures
        plan@ == steps_upto(entries@, entries@.len() as int).push(Step::Increment),
{
    let ghost given = entries@;
    let mut stack: Vec<WalkEntry> = reversed(entries);
    let mut plan: Vec<Step> = Vec::new();
    let ghost mut done: int = 0;
    while stack.len() > 0
        invariant
            0 <= done <= given.len(),
            stack@.len() == given.len() - done,
            forall|i: int| 0 <= i < stack@.len() ==> stack@[i] == given[given.len() - 1 - i],
            plan@ == steps_upto(given, done),
        decreases stack@.len(),
    {
        let entry = stack.pop().unwrap();
        proof {
            assert(entry == given[done]);
            done = done + 1;
        }
        match entry {
            WalkEntry::File(path) => {
                plan.push(Step::Analyze(AnalyzeSource::Path(path)));
            },
            WalkEntry::Other => {},
            WalkEntry::Unreadable(reason) => {
                plan.push(Step::Message(reason));
            },
        }
    }
    plan.push(Step::Increment);
    plan
}

/// How many steps of a plan are signals that a source is expanded.
pub open spec fn increments(plan: Seq<Step>) -> nat
    decreases plan.len(),
{
    if plan.len() == 0 {
        0
    } else {
        increments(plan.drop_last()) + if plan.last() is Increment {
            1nat
        } else {
            0nat
        }
    }
}

/// The steps for the entries of a walk hold no signal that the source is
/// expanded, so the plan of a walk holds exactly one: its last step.
pub proof fn lemma_one_increment(entries: Seq<WalkEntry>, upto: int)
    requires
        0 <= upto <= entries.len(),
    ensures
        increments(steps_upto(entries, upto)) == 0,
        increments(steps_upto(entries, upto).push(Step::Increment)) == 1,
    decreases upto,
{
    if upto > 0 {
        lemma_one_increment(entries, upto - 1);
        let before = steps_upto(entries, upto - 1);
        let now = steps_upto(entries, upto);
        if now.len() > before.len() {
            assert(now.drop_last() =~= before);
        }
    }
    let steps = steps_upto(entries, upto);
    assert(steps.push(Step::Increment).drop_last() =~= steps);
}

} // verus!
