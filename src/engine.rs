//! One trigger's pass through the engine, and what its handlers' outcomes
//! amount to.
use crate::order::texts_view;
use crate::paths::{diffs_view, file_diffs, files_view, is_file_set, DiffV, File, FileDiff};
use crate::store::{stored_files, PathDb};
use crate::trigger::{compile_handlers, handler_commands, commands_view, CompiledHandler, Trigger};
use vstd::prelude::*;

verus! {

/// The paths to handle: those of modified records, or of every record when forced.
pub open spec fn outdated_paths(d: Seq<DiffV>, force: bool) -> Seq<Seq<char>>
    decreases d.len(),
{
    if d.len() == 0 {
        Seq::empty()
    } else if force || d.last().1 {
        outdated_paths(d.drop_last(), force).push(d.last().0.0)
    } else {
        outdated_paths(d.drop_last(), force)
    }
}

/// The paths of the records that `force` or a modification selects.
pub fn select_outdated(diffs: &Vec<FileDiff>, force: bool) -> (r: Vec<String>)
    ensures
        texts_view(r@) == outdated_paths(diffs_view(diffs@), force),
{
    let ghost d = diffs_view(diffs@);
    let mut out: Vec<String> = Vec::new();
    let mut i: usize = 0;
    while i < diffs.len()
        invariant
            d == diffs_view(diffs@),
            i <= diffs@.len(),
            texts_view(out@) == outdated_paths(d.subrange(0, i as int), force),
        decreases diffs@.len() - i,
    {
        proof {
            assert(d.subrange(0, i + 1).drop_last() =~= d.subrange(0, i as int));
            assert(d.subrange(0, i + 1).last() == d[i as int]);
        }
        if force || diffs[i].is_modified() {
            let ghost prev = texts_view(out@);
            out.push(diffs[i].value().path.clone());
            proof {
                assert(texts_view(out@) =~= prev.push(d[i as int].0.0));
            }
        }
        i = i + 1;
    }
    proof {
        assert(d.subrange(0, d.len() as int) =~= d);
    }
    out
}

fn copy_files(v: &Vec<File>) -> (r: Vec<File>)
    ensures
        files_view(r@) == files_view(v@),
{
    let mut out: Vec<File> = Vec::new();
    let mut i: usize = 0;
    while i < v.len()
        invariant
            i <= v@.len(),
            files_view(out@) =~= files_view(v@).subrange(0, i as int),
        decreases v@.len() - i,
    {
        let ghost prev = files_view(out@);
        out.push(v[i].duplicate());
        proof {
            assert(files_view(out@) =~= prev.push(v@[i as int]@));
        }
        i = i + 1;
    }
    proof {
        assert(files_view(v@).subrange(0, v@.len() as int) =~= files_view(v@));
    }
    out
}

/// Takes a trigger that is not inhibited through one run against the store:
/// diffs the discovered files against those stored for it, compiles its
/// handlers for the outdated paths (every path when `force`), and stores the
/// discovered files as its new state, whatever the handlers will do. An
/// empty result means that the trigger has nothing to run.
pub fn process_trigger(db: &mut PathDb, trigger: &Trigger, discovered: Vec<File>, force: bool) -> (r: Vec<CompiledHandler>)
    requires
        old(db).wf(),
        is_file_set(files_view(discovered@)),
    ensures
        final(db).wf(),
        final(db)@ == old(db)@.insert(trigger.name@, files_view(discovered@)),
        commands_view(r@).to_set() == handler_commands(
            trigger.patterns@,
            outdated_paths(file_diffs(stored_files(old(db)@, trigger.name@), files_view(discovered@)), force),
        ),
        crate::order::strictly_ascending(commands_view(r@)),
{
    let keep = copy_files(&discovered);
    let diffs = db.extract_diff(&trigger.name, discovered);
    let outdated = select_outdated(&diffs, force);
    let handlers = compile_handlers(trigger, &outdated);
    db.insert(trigger.name.clone(), keep);
    proof {
        assert(db@ =~= old(db)@.insert(trigger.name@, files_view(discovered@)));
    }
    handlers
}

/// How one handler ended.
#[derive(Clone, Copy, Debug, PartialEq, Eq, Structural)]
pub enum HandlerOutcome {
    /// The process ran and exited with this status code.
    Exited(i32),
    /// The process ran and was ended by a signal.
    Killed,
    /// The process could not be started.
    NotLaunched,
}

/// A handler that did not succeed, by its position among the trigger's handlers.
#[derive(Clone, Copy, Debug, PartialEq, Eq, Structural)]
pub enum HandlerFailure {
    /// It exited with this non-zero status code.
    ExitedWith(usize, i32),
    /// It was ended by a signal.
    Killed(usize),
    /// It could not be started.
    NotLaunched(usize),
}

/// The failure that outcome `o` of handler `i` amounts to, if any.
pub open spec fn failure_of(i: usize, o: HandlerOutcome) -> Option<HandlerFailure> {
    match o {
        HandlerOutcome::Exited(0) => None,
        HandlerOutcome::Exited(code) => Some(HandlerFailure::ExitedWith(i, code)),
        HandlerOutcome::Killed => Some(HandlerFailure::Killed(i)),
        HandlerOutcome::NotLaunched => Some(HandlerFailure::NotLaunched(i)),
    }
}

/// The failures among the outcomes of the first `n` handlers, in handler order.
pub open spec fn failures_upto(outcomes: Seq<HandlerOutcome>, n: int) -> Seq<HandlerFailure>
    decreases n,
{
    if n <= 0 {
        Seq::empty()
    } else {
        match failure_of((n - 1) as usize, outcomes[n - 1]) {
            Some(f) => failures_upto(outcomes, n - 1).push(f),
            None => failures_upto(outcomes, n - 1),
        }
    }
}

/// The failures of a trigger's handlers, once every handler has been
/// attempted: each one that did not exit with status 0, in handler order.
pub fn handler_failures(outcomes: &Vec<HandlerOutcome>) -> (r: Vec<HandlerFailure>)
    ensures
        r@ == failures_upto(outcomes@, outcomes@.len() as int),
        r@.len() == 0 <==> forall|i: int|
            0 <= i < outcomes@.len() ==> outcomes@[i] == HandlerOutcome::Exited(0),
{
    let mut out: Vec<HandlerFailure> = Vec::new();
    let mut i: usize = 0;
    while i < outcomes.len()
        invariant
            i <= outcomes@.len(),
            out@ == failures_upto(outcomes@, i as int),
            out@.len() == 0 <==> forall|k: int|
                0 <= k < i ==> outcomes@[k] == HandlerOutcome::Exited(0),
        decreases outcomes@.len() - i,
    {
        match outcomes[i] {
            HandlerOutcome::Exited(code) => {
                if code != 0 {
                    out.push(HandlerFailure::ExitedWith(i, code));
                }
            },
            HandlerOutcome::Killed => {
                out.push(HandlerFailure::Killed(i));
            },
            HandlerOutcome::NotLaunched => {
                out.push(HandlerFailure::NotLaunched(i));
            },
        }
        i = i + 1;
    }
    out
}

/// How many of the first `n` handlers were started, whatever their end.
pub open spec fn launched_upto(outcomes: Seq<HandlerOutcome>, n: int) -> nat
    decreases n,
{
    if n <= 0 {
        0
    } else {
        launched_upto(outcomes, n - 1) + if outcomes[n - 1] == HandlerOutcome::NotLaunched {
            0nat
        } else {
            1nat
        }
    }
}

/// The number of handlers that were started, whatever their end.
pub fn launched_count(outcomes: &Vec<HandlerOutcome>) -> (r: usize)
    ensures
        r == launched_upto(outcomes@, outcomes@.len() as int),
{
    let mut n: usize = 0;
    let mut i: usize = 0;
    while i < outcomes.len()
        invariant
            i <= outcomes@.len(),
            n == launched_upto(outcomes@, i as int),
            n <= i,
        decreases outcomes@.len() - i,
    {
        if outcomes[i] != HandlerOutcome::NotLaunched {
            n = n + 1;
        }
        i = i + 1;
    }
    n
}

} // verus!
