//! A run, act by act.
//!
//! A run is a machine. Each of its states calls for one act on the host; the
//! report on that act leads to the next state. What is performed, and what it
//! came to, is for the caller to see to.
use vstd::prelude::*;
use vstd::string::*;

use crate::bytes::bytes_of;
use crate::command::{agent_dir, bwrap_command, BwrapCommand, CommandView};
use crate::error::{failure, in_context, path, text, Error, ErrorView, Message};
use crate::host::{
    host_error, host_failure, FactsView, HostFacts, Question, QuestionView, Reply, ReplyOf, StopOf,
};
use crate::path::{components, is_under, join, HostPath};
use crate::preflight::{fit, preflight};
use crate::types::{LaunchSpec, LaunchView};
use crate::views::views;

pub use crate::command::build_bwrap_command;

verus! {

broadcast use crate::views::group_views;

/// Read, write and search for the user alone.
pub const PRIVATE_DIR: u32 = 0x1c0;

/// Read and write for the user alone.
pub const PRIVATE_FILE: u32 = 0x180;

/// What stands at a path, links not followed; `T` says why that is not known.
#[derive(Clone, Debug, PartialEq, Eq)]
pub enum EntryOf<T> {
    Missing(T),
    Unknown(T),
    Symlink,
    Directory,
    File,
    Other,
}

pub type Entry = EntryOf<String>;

impl View for EntryOf<String> {
    type V = EntryOf<Seq<char>>;

    open spec fn view(&self) -> EntryOf<Seq<char>> {
        match *self {
            EntryOf::Missing(why) => EntryOf::Missing(why@),
            EntryOf::Unknown(why) => EntryOf::Unknown(why@),
            EntryOf::Symlink => EntryOf::Symlink,
            EntryOf::Directory => EntryOf::Directory,
            EntryOf::File => EntryOf::File,
            EntryOf::Other => EntryOf::Other,
        }
    }
}

/// How a program ended.
#[derive(Clone, Copy, Debug, PartialEq, Eq)]
pub struct Status {
    pub code: Option<i32>,
    pub signal: Option<i32>,
}

/// An act on the host, over paths `P`, texts `T` and commands `C`.
#[derive(Clone, Debug, PartialEq, Eq)]
pub enum ActOf<P, T, C> {
    /// See what stands at a path.
    Inspect(P),
    /// Make a directory with the given mode.
    MakeDir(P, u32),
    /// Give a path the given mode.
    SetMode(P, u32),
    /// Find the canonical form of a path.
    Resolve(P),
    /// Open a file for writing, and make it with the given mode if it is missing.
    MakeFile(P, u32),
    /// Take the lock that a file stands for, and hold it to the end of the run.
    Lock(P),
    /// Make a directory in another under a new name that starts as given.
    MakeTemp(P, T),
    /// Run a command to its end.
    Launch(C),
    /// List a directory.
    List(P),
    /// Remove a directory with all that is in it.
    Remove(P),
    /// Remove a directory with all that is in it, if that can be done.
    Discard(P),
}

pub type Act = ActOf<HostPath, String, BwrapCommand>;

pub type ActView = ActOf<Seq<u8>, Seq<char>, CommandView>;

impl View for ActOf<HostPath, String, BwrapCommand> {
    type V = ActView;

    open spec fn view(&self) -> ActView {
        match *self {
            ActOf::Inspect(p) => ActOf::Inspect(p@),
            ActOf::MakeDir(p, mode) => ActOf::MakeDir(p@, mode),
            ActOf::SetMode(p, mode) => ActOf::SetMode(p@, mode),
            ActOf::Resolve(p) => ActOf::Resolve(p@),
            ActOf::MakeFile(p, mode) => ActOf::MakeFile(p@, mode),
            ActOf::Lock(p) => ActOf::Lock(p@),
            ActOf::MakeTemp(p, prefix) => ActOf::MakeTemp(p@, prefix@),
            ActOf::Launch(command) => ActOf::Launch(command@),
            ActOf::List(p) => ActOf::List(p@),
            ActOf::Remove(p) => ActOf::Remove(p@),
            ActOf::Discard(p) => ActOf::Discard(p@),
        }
    }
}

/// What an act came to.
#[derive(Clone, Debug, PartialEq, Eq)]
pub enum Report {
    /// It failed, in the host's words.
    Failed(String),
    /// It was done, and there is no more to say.
    Done,
    /// What was seen.
    Entry(Entry),
    /// The path that was found or made.
    Path(HostPath),
    /// The file that stands for a lock could not be opened.
    NotOpened(String),
    /// How the command ended.
    Exit(Status),
    /// What a directory holds.
    Listing(Vec<Reply<HostPath>>),
}

pub enum ReportView {
    Failed(Seq<char>),
    Done,
    Entry(EntryOf<Seq<char>>),
    Path(Seq<u8>),
    NotOpened(Seq<char>),
    Exit(Status),
    Listing(Seq<ReplyOf<Seq<u8>, Seq<char>>>),
}

impl View for Report {
    type V = ReportView;

    open spec fn view(&self) -> ReportView {
        match *self {
            Report::Failed(why) => ReportView::Failed(why@),
            Report::Done => ReportView::Done,
            Report::Entry(entry) => ReportView::Entry(entry@),
            Report::Path(p) => ReportView::Path(p@),
            Report::NotOpened(why) => ReportView::NotOpened(why@),
            Report::Exit(status) => ReportView::Exit(status),
            Report::Listing(entries) => ReportView::Listing(views(entries@)),
        }
    }
}

/// The directories that a run keeps to the user, in the order in which it sees
/// to them.
#[derive(Clone, Copy, Debug, PartialEq, Eq)]
pub enum Place {
    Hidden,
    Agent,
    State,
    Upper,
}

/// What a run returns.
pub open spec fn result_view(r: Result<Status, Error>) -> Result<Status, ErrorView> {
    match r {
        Ok(status) => Ok(status),
        Err(error) => Err(error@),
    }
}

/// The clearing of a work directory once the command has ended: the path that is
/// being made removable, and those that have yet to be, the next of them last.
#[derive(Debug)]
pub struct Cleanup {
    pub work: HostPath,
    pub launched: Result<Status, Error>,
    pub here: HostPath,
    pub pending: Vec<Reply<HostPath>>,
}

pub struct CleanupView {
    pub work: Seq<u8>,
    pub launched: Result<Status, ErrorView>,
    pub here: Seq<u8>,
    pub pending: Seq<ReplyOf<Seq<u8>, Seq<char>>>,
}

impl View for Cleanup {
    type V = CleanupView;

    open spec fn view(&self) -> CleanupView {
        CleanupView {
            work: self.work@,
            launched: result_view(self.launched),
            here: self.here@,
            pending: views(self.pending@),
        }
    }
}

/// How far a run has come, by the act that it calls for next.
#[derive(Debug)]
pub enum State {
    /// See whether a private directory is there.
    Looking(Place),
    Making(Place),
    Keeping(Place),
    /// See where the state directory really is.
    Resolving,
    LookingAtLock,
    MakingLock,
    KeepingLock,
    Locking,
    MakingWork,
    KeepingWork(HostPath),
    Running(HostPath),
    /// See what the next path in the work directory is.
    Clearing(Cleanup),
    /// It is a directory.
    Opening(Cleanup),
    Listing(Cleanup),
    /// It is neither a directory nor a link.
    Freeing(Cleanup),
    Removing(HostPath, Result<Status, Error>),
    Discarding(HostPath, Result<Status, Error>),
    Ended(Result<Status, Error>),
}

pub enum StateView {
    Looking(Place),
    Making(Place),
    Keeping(Place),
    Resolving,
    LookingAtLock,
    MakingLock,
    KeepingLock,
    Locking,
    MakingWork,
    KeepingWork(Seq<u8>),
    Running(Seq<u8>),
    Clearing(CleanupView),
    Opening(CleanupView),
    Listing(CleanupView),
    Freeing(CleanupView),
    Removing(Seq<u8>, Result<Status, ErrorView>),
    Discarding(Seq<u8>, Result<Status, ErrorView>),
    Ended(Result<Status, ErrorView>),
}

impl View for State {
    type V = StateView;

    open spec fn view(&self) -> StateView {
        match *self {
            State::Looking(place) => StateView::Looking(place),
            State::Making(place) => StateView::Making(place),
            State::Keeping(place) => StateView::Keeping(place),
            State::Resolving => StateView::Resolving,
            State::LookingAtLock => StateView::LookingAtLock,
            State::MakingLock => StateView::MakingLock,
            State::KeepingLock => StateView::KeepingLock,
            State::Locking => StateView::Locking,
            State::MakingWork => StateView::MakingWork,
            State::KeepingWork(work) => StateView::KeepingWork(work@),
            State::Running(work) => StateView::Running(work@),
            State::Clearing(cleanup) => StateView::Clearing(cleanup@),
            State::Opening(cleanup) => StateView::Opening(cleanup@),
            State::Listing(cleanup) => StateView::Listing(cleanup@),
            State::Freeing(cleanup) => StateView::Freeing(cleanup@),
            State::Removing(work, launched) => StateView::Removing(work@, result_view(launched)),
            State::Discarding(work, result) => StateView::Discarding(work@, result_view(result)),
            State::Ended(result) => StateView::Ended(result_view(result)),
        }
    }
}

pub open spec fn place_path(spec: LaunchView, place: Place) -> Seq<u8> {
    match place {
        Place::Hidden => join(spec.project, bytes_of(".sbox"@)),
        Place::Agent => agent_dir(spec.home),
        Place::State => spec.state_dir,
        Place::Upper => join(spec.state_dir, bytes_of("omp-upper"@)),
    }
}

pub open spec fn lock_file(spec: LaunchView) -> Seq<u8> {
    join(spec.state_dir, bytes_of("omp.lock"@))
}

/// What follows once a private directory is as it should be.
pub open spec fn after_place(place: Place) -> StateView {
    match place {
        Place::Hidden => StateView::Looking(Place::Agent),
        Place::Agent => StateView::Looking(Place::State),
        Place::State => StateView::Looking(Place::Upper),
        Place::Upper => StateView::Resolving,
    }
}

pub open spec fn broken(error: ErrorView) -> StateView {
    StateView::Ended(Err(error))
}

pub open spec fn component_failure(p: Seq<u8>, what: Seq<char>) -> ErrorView {
    failure(seq![text("sandbox state component "@)].push(path(p)).push(text(what)))
}

pub open spec fn after_look(spec: LaunchView, place: Place, report: ReportView) -> StateView {
    let p = place_path(spec, place);
    match report {
        ReportView::Entry(EntryOf::Missing(_)) => StateView::Making(place),
        ReportView::Entry(EntryOf::Unknown(why)) => broken(
            in_context(seq![text("cannot inspect "@)].push(path(p)), host_failure(why)),
        ),
        ReportView::Entry(EntryOf::Symlink) => broken(
            component_failure(p, " must not be a symlink"@),
        ),
        ReportView::Entry(EntryOf::Directory) => StateView::Keeping(place),
        ReportView::Entry(_) => broken(component_failure(p, " is not a directory"@)),
        _ => StateView::Looking(place),
    }
}

pub open spec fn after_resolving(spec: LaunchView, report: ReportView) -> StateView {
    match report {
        ReportView::Failed(why) => broken(host_failure(why)),
        ReportView::Path(canonical) => if is_under(canonical, spec.project) {
            StateView::LookingAtLock
        } else {
            broken(
                failure(
                    seq![text("sandbox state "@)].push(path(canonical)).push(
                        text(" escapes project "@),
                    ).push(path(spec.project)),
                ),
            )
        },
        _ => StateView::Resolving,
    }
}

pub open spec fn after_lock_look(spec: LaunchView, report: ReportView) -> StateView {
    match report {
        ReportView::Entry(EntryOf::Symlink)
        | ReportView::Entry(EntryOf::Directory)
        | ReportView::Entry(EntryOf::Other) => broken(
            failure(
                seq![text("state lock "@)].push(path(lock_file(spec))).push(
                    text(" must be a regular file"@),
                ),
            ),
        ),
        ReportView::Entry(_) => StateView::MakingLock,
        _ => StateView::LookingAtLock,
    }
}

pub open spec fn after_locking(spec: LaunchView, report: ReportView) -> StateView {
    match report {
        ReportView::Done => StateView::MakingWork,
        ReportView::NotOpened(why) => broken(
            in_context(
                seq![text("cannot open state lock "@)].push(path(lock_file(spec))),
                host_failure(why),
            ),
        ),
        ReportView::Failed(why) => broken(
            in_context(
                seq![text("cannot exclusively lock "@)].push(path(lock_file(spec))),
                host_failure(why),
            ),
        ),
        _ => StateView::Locking,
    }
}

pub open spec fn after_work(spec: LaunchView, report: ReportView) -> StateView {
    match report {
        ReportView::Path(work) => StateView::KeepingWork(work),
        ReportView::Failed(why) => broken(
            in_context(
                seq![text("cannot create OverlayFS work directory in "@)].push(
                    path(spec.state_dir),
                ),
                host_failure(why),
            ),
        ),
        _ => StateView::MakingWork,
    }
}

/// The result of a run whose clearing met with `trouble`: that of the launch
/// comes first.
pub open spec fn troubled(launched: Result<Status, ErrorView>, trouble: ErrorView) -> Result<
    Status,
    ErrorView,
> {
    match launched {
        Ok(_) => Err(trouble),
        Err(error) => Err(error),
    }
}

/// Gives up on the clearing.
pub open spec fn spoiled(cleanup: CleanupView, why: Seq<char>) -> StateView {
    StateView::Discarding(cleanup.work, troubled(cleanup.launched, host_failure(why)))
}

/// Turns to the next path that has yet to be made removable.
pub open spec fn cleared(cleanup: CleanupView) -> StateView {
    if cleanup.pending.len() == 0 {
        StateView::Removing(cleanup.work, cleanup.launched)
    } else {
        match cleanup.pending.last() {
            ReplyOf::Got(p) => StateView::Clearing(
                CleanupView { here: p, pending: cleanup.pending.drop_last(), ..cleanup },
            ),
            ReplyOf::Failed(why) => spoiled(cleanup, why),
        }
    }
}

pub open spec fn launched_state(work: Seq<u8>, launched: Result<Status, ErrorView>) -> StateView {
    StateView::Clearing(CleanupView { work, launched, here: work, pending: Seq::empty() })
}

pub open spec fn after_launch(spec: LaunchView, work: Seq<u8>, report: ReportView) -> StateView {
    match report {
        ReportView::Exit(status) => launched_state(work, Ok(status)),
        ReportView::Failed(why) => launched_state(
            work,
            Err(
                in_context(
                    seq![text("failed to launch Bubblewrap "@)].push(path(spec.bwrap)).push(
                        text("; required overlay isolation was not weakened"@),
                    ),
                    host_failure(why),
                ),
            ),
        ),
        _ => StateView::Running(work),
    }
}

pub open spec fn after_inspection(cleanup: CleanupView, report: ReportView) -> StateView {
    match report {
        ReportView::Entry(EntryOf::Missing(why)) => spoiled(cleanup, why),
        ReportView::Entry(EntryOf::Unknown(why)) => spoiled(cleanup, why),
        ReportView::Entry(EntryOf::Directory) => StateView::Opening(cleanup),
        ReportView::Entry(EntryOf::Symlink) => cleared(cleanup),
        ReportView::Entry(_) => StateView::Freeing(cleanup),
        _ => StateView::Clearing(cleanup),
    }
}

pub open spec fn after_listing(cleanup: CleanupView, report: ReportView) -> StateView {
    match report {
        ReportView::Listing(entries) => cleared(
            CleanupView { pending: cleanup.pending + entries.reverse(), ..cleanup },
        ),
        ReportView::Failed(why) => spoiled(cleanup, why),
        _ => StateView::Listing(cleanup),
    }
}

/// The state that a report leads to. One that does not answer the act leaves
/// the state as it is.
pub open spec fn next_state(spec: LaunchView, state: StateView, report: ReportView) -> StateView {
    match state {
        StateView::Looking(place) => after_look(spec, place, report),
        StateView::Making(place) => match report {
            ReportView::Done => after_place(place),
            ReportView::Failed(why) => broken(
                in_context(
                    seq![text("cannot create private state directory "@)].push(
                        path(place_path(spec, place)),
                    ),
                    host_failure(why),
                ),
            ),
            _ => state,
        },
        StateView::Keeping(place) => match report {
            ReportView::Done => after_place(place),
            ReportView::Failed(why) => broken(host_failure(why)),
            _ => state,
        },
        StateView::Resolving => after_resolving(spec, report),
        StateView::LookingAtLock => after_lock_look(spec, report),
        StateView::MakingLock => match report {
            ReportView::Done => StateView::KeepingLock,
            ReportView::Failed(why) => broken(
                in_context(
                    seq![text("cannot create state lock "@)].push(path(lock_file(spec))),
                    host_failure(why),
                ),
            ),
            _ => state,
        },
        StateView::KeepingLock => match report {
            ReportView::Done => StateView::Locking,
            ReportView::Failed(why) => broken(host_failure(why)),
            _ => state,
        },
        StateView::Locking => after_locking(spec, report),
        StateView::MakingWork => after_work(spec, report),
        StateView::KeepingWork(work) => match report {
            ReportView::Done => StateView::Running(work),
            ReportView::Failed(why) => StateView::Discarding(work, Err(host_failure(why))),
            _ => state,
        },
        StateView::Running(work) => after_launch(spec, work, report),
        StateView::Clearing(cleanup) => after_inspection(cleanup, report),
        StateView::Opening(cleanup) => match report {
            ReportView::Done => StateView::Listing(cleanup),
            ReportView::Failed(why) => spoiled(cleanup, why),
            _ => state,
        },
        StateView::Listing(cleanup) => after_listing(cleanup, report),
        StateView::Freeing(cleanup) => match report {
            ReportView::Done => cleared(cleanup),
            ReportView::Failed(why) => spoiled(cleanup, why),
            _ => state,
        },
        StateView::Removing(_, launched) => match report {
            ReportView::Done => StateView::Ended(launched),
            ReportView::Failed(why) => StateView::Ended(
                troubled(
                    launched,
                    in_context(
                        seq![text("cannot remove temporary OverlayFS work directory"@)],
                        host_failure(why),
                    ),
                ),
            ),
            _ => state,
        },
        StateView::Discarding(_, result) => match report {
            ReportView::Done => StateView::Ended(result),
            ReportView::Failed(_) => StateView::Ended(result),
            _ => state,
        },
        StateView::Ended(_) => state,
    }
}

/// The state that a run starts from. A state directory out of its place ends it
/// at once.
pub open spec fn first_state(spec: LaunchView) -> StateView {
    let expected = join(spec.project, bytes_of(".sbox/state"@));
    if components(spec.state_dir) != components(expected) {
        broken(
            failure(
                seq![text("state directory "@)].push(path(spec.state_dir)).push(
                    text(" must be exactly "@),
                ).push(path(expected)),
            ),
        )
    } else {
        StateView::Looking(Place::Hidden)
    }
}

/// The state after a row of reports.
pub open spec fn state_after(spec: LaunchView, reports: Seq<ReportView>) -> StateView
    decreases reports.len(),
{
    if reports.len() == 0 {
        first_state(spec)
    } else {
        next_state(spec, state_after(spec, reports.drop_last()), reports.last())
    }
}

/// Where the program stands: it wants an answer to work out the launch, or one
/// to check the host just before the run, or an act performed, or it is over.
#[derive(Debug)]
pub enum Progress<R> {
    Ask(Question),
    Check(Question),
    Act(Act),
    Ended(Result<R, Error>),
}

pub enum ProgressView<R> {
    Ask(QuestionView),
    Check(QuestionView),
    Act(ActView),
    Ended(Result<R, ErrorView>),
}

impl<R> View for Progress<R> {
    type V = ProgressView<R>;

    open spec fn view(&self) -> ProgressView<R> {
        match *self {
            Progress::Ask(question) => ProgressView::Ask(question@),
            Progress::Check(question) => ProgressView::Check(question@),
            Progress::Act(act) => ProgressView::Act(act@),
            Progress::Ended(Ok(value)) => ProgressView::Ended(Ok(value)),
            Progress::Ended(Err(error)) => ProgressView::Ended(Err(error@)),
        }
    }
}

/// The act that a state calls for.
pub open spec fn call(
    spec: LaunchView,
    omp_args: Seq<Seq<u8>>,
    state: StateView,
) -> ProgressView<Status> {
    match state {
        StateView::Looking(place) => ProgressView::Act(ActOf::Inspect(place_path(spec, place))),
        StateView::Making(place) => ProgressView::Act(
            ActOf::MakeDir(place_path(spec, place), PRIVATE_DIR),
        ),
        StateView::Keeping(place) => ProgressView::Act(
            ActOf::SetMode(place_path(spec, place), PRIVATE_DIR),
        ),
        StateView::Resolving => ProgressView::Act(ActOf::Resolve(spec.state_dir)),
        StateView::LookingAtLock => ProgressView::Act(ActOf::Inspect(lock_file(spec))),
        StateView::MakingLock => ProgressView::Act(
            ActOf::MakeFile(lock_file(spec), PRIVATE_FILE),
        ),
        StateView::KeepingLock => ProgressView::Act(
            ActOf::SetMode(lock_file(spec), PRIVATE_FILE),
        ),
        StateView::Locking => ProgressView::Act(ActOf::Lock(lock_file(spec))),
        StateView::MakingWork => ProgressView::Act(ActOf::MakeTemp(spec.state_dir, "omp-work-"@)),
        StateView::KeepingWork(work) => ProgressView::Act(ActOf::SetMode(work, PRIVATE_DIR)),
        StateView::Running(work) => ProgressView::Act(
            ActOf::Launch(bwrap_command(spec, work, omp_args)),
        ),
        StateView::Clearing(cleanup) => ProgressView::Act(ActOf::Inspect(cleanup.here)),
        StateView::Opening(cleanup) => ProgressView::Act(
            ActOf::SetMode(cleanup.here, PRIVATE_DIR),
        ),
        StateView::Listing(cleanup) => ProgressView::Act(ActOf::List(cleanup.here)),
        StateView::Freeing(cleanup) => ProgressView::Act(
            ActOf::SetMode(cleanup.here, PRIVATE_FILE),
        ),
        StateView::Removing(work, _) => ProgressView::Act(ActOf::Remove(work)),
        StateView::Discarding(work, _) => ProgressView::Act(ActOf::Discard(work)),
        StateView::Ended(result) => ProgressView::Ended(result),
    }
}

/// Where a run stands after a row of reports.
pub open spec fn run(
    facts: FactsView,
    spec: LaunchView,
    omp_args: Seq<Seq<u8>>,
    reports: Seq<ReportView>,
) -> ProgressView<Status> {
    match fit(facts, spec) {
        Err(StopOf::Ask(question)) => ProgressView::Check(question),
        Err(StopOf::Fail(error)) => ProgressView::Ended(Err(error)),
        Ok(_) => call(spec, omp_args, state_after(spec, reports)),
    }
}

fn place_of(spec: &LaunchSpec, place: Place) -> (r: HostPath)
    ensures
        r@ == place_path(spec@, place),
{
    match place {
        Place::Hidden => spec.project.join_text(".sbox"),
        Place::Agent => spec.home.join_text(".omp/agent"),
        Place::State => spec.state_dir.copy(),
        Place::Upper => spec.state_dir.join_text("omp-upper"),
    }
}

fn lock_of(spec: &LaunchSpec) -> (r: HostPath)
    ensures
        r@ == lock_file(spec@),
{
    spec.state_dir.join_text("omp.lock")
}

fn past(place: Place) -> (r: State)
    ensures
        r@ == after_place(place),
{
    match place {
        Place::Hidden => State::Looking(Place::Agent),
        Place::Agent => State::Looking(Place::State),
        Place::State => State::Looking(Place::Upper),
        Place::Upper => State::Resolving,
    }
}

/// Ends a run on a failure of the host's.
fn end(why: &String) -> (r: State)
    ensures
        r@ == broken(host_failure(why@)),
{
    State::Ended(Err(host_error(why)))
}

fn end_in(message: Message, why: &String) -> (r: State)
    ensures
        r@ == broken(in_context(message@, host_failure(why@))),
{
    State::Ended(Err(host_error(why).context(message)))
}

/// Sees to a private directory: makes one that is missing, keeps one that is
/// there to the user, and accepts nothing else in its place.
fn ensure_private_directory(spec: &LaunchSpec, place: Place, report: &Report) -> (r: State)
    ensures
        r@ == after_look(spec@, place, report@),
{
    match report {
        Report::Entry(EntryOf::Missing(_)) => State::Making(place),
        Report::Entry(EntryOf::Unknown(why)) => end_in(
            Message::new("cannot inspect ").path(&place_of(spec, place)),
            why,
        ),
        Report::Entry(EntryOf::Symlink) => State::Ended(
            Err(
                Error::new(
                    Message::new("sandbox state component ").path(&place_of(spec, place)).text(
                        " must not be a symlink",
                    ),
                ),
            ),
        ),
        Report::Entry(EntryOf::Directory) => State::Keeping(place),
        Report::Entry(_) => State::Ended(
            Err(
                Error::new(
                    Message::new("sandbox state component ").path(&place_of(spec, place)).text(
                        " is not a directory",
                    ),
                ),
            ),
        ),
        _ => State::Looking(place),
    }
}

fn see_state(spec: &LaunchSpec, report: &Report) -> (r: State)
    ensures
        r@ == after_resolving(spec@, report@),
{
    match report {
        Report::Failed(why) => end(why),
        Report::Path(canonical) => if canonical.starts_with(&spec.project) {
            State::LookingAtLock
        } else {
            State::Ended(
                Err(
                    Error::new(
                        Message::new("sandbox state ").path(canonical).text(
                            " escapes project ",
                        ).path(&spec.project),
                    ),
                ),
            )
        },
        _ => State::Resolving,
    }
}

fn see_lock(spec: &LaunchSpec, report: &Report) -> (r: State)
    ensures
        r@ == after_lock_look(spec@, report@),
{
    match report {
        Report::Entry(EntryOf::Symlink)
        | Report::Entry(EntryOf::Directory)
        | Report::Entry(EntryOf::Other) => State::Ended(
            Err(
                Error::new(
                    Message::new("state lock ").path(&lock_of(spec)).text(
                        " must be a regular file",
                    ),
                ),
            ),
        ),
        Report::Entry(_) => State::MakingLock,
        _ => State::LookingAtLock,
    }
}

fn acquire_state_lock(spec: &LaunchSpec, report: &Report) -> (r: State)
    ensures
        r@ == after_locking(spec@, report@),
{
    match report {
        Report::Done => State::MakingWork,
        Report::NotOpened(why) => end_in(
            Message::new("cannot open state lock ").path(&lock_of(spec)),
            why,
        ),
        Report::Failed(why) => end_in(
            Message::new("cannot exclusively lock ").path(&lock_of(spec)),
            why,
        ),
        _ => State::Locking,
    }
}

fn take_work(spec: &LaunchSpec, report: &Report) -> (r: State)
    ensures
        r@ == after_work(spec@, report@),
{
    match report {
        Report::Path(work) => State::KeepingWork(work.copy()),
        Report::Failed(why) => end_in(
            Message::new("cannot create OverlayFS work directory in ").path(&spec.state_dir),
            why,
        ),
        _ => State::MakingWork,
    }
}

fn with_trouble(launched: Result<Status, Error>, trouble: Error) -> (r: Result<Status, Error>)
    ensures
        result_view(r) == troubled(result_view(launched), trouble@),
{
    match launched {
        Ok(_) => Err(trouble),
        Err(error) => Err(error),
    }
}

fn give_up(cleanup: Cleanup, why: &String) -> (r: State)
    ensures
        r@ == spoiled(cleanup@, why@),
{
    State::Discarding(cleanup.work, with_trouble(cleanup.launched, host_error(why)))
}

fn go_on(cleanup: Cleanup) -> (r: State)
    ensures
        r@ == cleared(cleanup@),
{
    let mut pending = cleanup.pending;
    let ghost all = views(pending@);
    match pending.pop() {
        None => State::Removing(cleanup.work, cleanup.launched),
        Some(ReplyOf::Got(p)) => {
            assert(views(pending@) =~= all.drop_last());
            State::Clearing(
                Cleanup { work: cleanup.work, launched: cleanup.launched, here: p, pending },
            )
        },
        Some(ReplyOf::Failed(why)) => State::Discarding(
            cleanup.work,
            with_trouble(cleanup.launched, host_error(&why)),
        ),
    }
}

fn launch_over(work: HostPath, launched: Result<Status, Error>) -> (r: State)
    ensures
        r@ == launched_state(work@, result_view(launched)),
{
    let pending: Vec<Reply<HostPath>> = Vec::new();
    assert(views(pending@) =~= Seq::empty());
    let here = work.copy();
    State::Clearing(Cleanup { work, launched, here, pending })
}

fn see_exit(spec: &LaunchSpec, work: HostPath, report: &Report) -> (r: State)
    ensures
        r@ == after_launch(spec@, work@, report@),
{
    match report {
        Report::Exit(status) => launch_over(work, Ok(*status)),
        Report::Failed(why) => launch_over(
            work,
            Err(
                host_error(why).context(
                    Message::new("failed to launch Bubblewrap ").path(&spec.bwrap).text(
                        "; required overlay isolation was not weakened",
                    ),
                ),
            ),
        ),
        _ => State::Running(work),
    }
}

/// Makes what is left of a work directory removable: a directory is opened to
/// the user and then searched, a link is left alone, and anything else is opened
/// to the user.
fn make_tree_removable(cleanup: Cleanup, report: &Report) -> (r: State)
    ensures
        r@ == after_inspection(cleanup@, report@),
{
    match report {
        Report::Entry(EntryOf::Missing(why)) => give_up(cleanup, why),
        Report::Entry(EntryOf::Unknown(why)) => give_up(cleanup, why),
        Report::Entry(EntryOf::Directory) => State::Opening(cleanup),
        Report::Entry(EntryOf::Symlink) => go_on(cleanup),
        Report::Entry(_) => State::Freeing(cleanup),
        _ => State::Clearing(cleanup),
    }
}

fn copy_entry(entry: &Reply<HostPath>) -> (r: Reply<HostPath>)
    ensures
        r@ == entry@,
{
    match entry {
        ReplyOf::Got(p) => ReplyOf::Got(p.copy()),
        ReplyOf::Failed(why) => ReplyOf::Failed(why.as_str().to_owned()),
    }
}

fn see_listing(cleanup: Cleanup, report: &Report) -> (r: State)
    ensures
        r@ == after_listing(cleanup@, report@),
{
    match report {
        Report::Listing(entries) => {
            let ghost before = views(cleanup.pending@);
            let ghost all = views(entries@);
            let mut pending = cleanup.pending;
            let mut n: usize = entries.len();
            assert(before + all.reverse().take(0) =~= before);
            while n > 0
                invariant
                    n <= entries.len(),
                    all == views(entries@),
                    views(pending@) == before + all.reverse().take(entries.len() - n),
                decreases n,
            {
                assert(all.reverse()[entries.len() - n] == entries@[n - 1]@);
                assert(before + all.reverse().take(entries.len() - n + 1) =~= (before
                    + all.reverse().take(entries.len() - n)).push(entries@[n - 1]@));
                pending.push(copy_entry(&entries[n - 1]));
                n -= 1;
            }
            assert(all.reverse().take(all.len() as int) =~= all.reverse());
            go_on(
                Cleanup {
                    work: cleanup.work,
                    launched: cleanup.launched,
                    here: cleanup.here,
                    pending,
                },
            )
        },
        Report::Failed(why) => give_up(cleanup, why),
        _ => State::Listing(cleanup),
    }
}

/// Takes a report to the next state.
pub fn advance(spec: &LaunchSpec, state: State, report: &Report) -> (r: State)
    ensures
        r@ == next_state(spec@, state@, report@),
{
    match state {
        State::Looking(place) => ensure_private_directory(spec, place, report),
        State::Making(place) => match report {
            Report::Done => past(place),
            Report::Failed(why) => end_in(
                Message::new("cannot create private state directory ").path(
                    &place_of(spec, place),
                ),
                why,
            ),
            _ => State::Making(place),
        },
        State::Keeping(place) => match report {
            Report::Done => past(place),
            Report::Failed(why) => end(why),
            _ => State::Keeping(place),
        },
        State::Resolving => see_state(spec, report),
        State::LookingAtLock => see_lock(spec, report),
        State::MakingLock => match report {
            Report::Done => State::KeepingLock,
            Report::Failed(why) => end_in(
                Message::new("cannot create state lock ").path(&lock_of(spec)),
                why,
            ),
            _ => State::MakingLock,
        },
        State::KeepingLock => match report {
            Report::Done => State::Locking,
            Report::Failed(why) => end(why),
            _ => State::KeepingLock,
        },
        State::Locking => acquire_state_lock(spec, report),
        State::MakingWork => take_work(spec, report),
        State::KeepingWork(work) => match report {
            Report::Done => State::Running(work),
            Report::Failed(why) => State::Discarding(work, Err(host_error(why))),
            _ => State::KeepingWork(work),
        },
        State::Running(work) => see_exit(spec, work, report),
        State::Clearing(cleanup) => make_tree_removable(cleanup, report),
        State::Opening(cleanup) => match report {
            Report::Done => State::Listing(cleanup),
            Report::Failed(why) => give_up(cleanup, why),
            _ => State::Opening(cleanup),
        },
        State::Listing(cleanup) => see_listing(cleanup, report),
        State::Freeing(cleanup) => match report {
            Report::Done => go_on(cleanup),
            Report::Failed(why) => give_up(cleanup, why),
            _ => State::Freeing(cleanup),
        },
        State::Removing(work, launched) => match report {
            Report::Done => State::Ended(launched),
            Report::Failed(why) => State::Ended(
                with_trouble(
                    launched,
                    host_error(why).context(
                        Message::new("cannot remove temporary OverlayFS work directory"),
                    ),
                ),
            ),
            _ => State::Removing(work, launched),
        },
        State::Discarding(work, result) => match report {
            Report::Done => State::Ended(result),
            Report::Failed(_) => State::Ended(result),
            _ => State::Discarding(work, result),
        },
        State::Ended(result) => State::Ended(result),
    }
}

/// Starts to prepare the state of a run.
pub fn prepare_state(spec: &LaunchSpec) -> (r: State)
    ensures
        r@ == first_state(spec@),
{
    let expected = spec.project.join_text(".sbox/state");
    if !spec.state_dir.same(&expected) {
        return State::Ended(
            Err(
                Error::new(
                    Message::new("state directory ").path(&spec.state_dir).text(
                        " must be exactly ",
                    ).path(&expected),
                ),
            ),
        );
    }
    State::Looking(Place::Hidden)
}

fn act_for(spec: &LaunchSpec, omp_args: &[Vec<u8>], state: State) -> (r: Progress<Status>)
    ensures
        r@ == call(spec@, views(omp_args@), state@),
{
    match state {
        State::Looking(place) => Progress::Act(ActOf::Inspect(place_of(spec, place))),
        State::Making(place) => Progress::Act(
            ActOf::MakeDir(place_of(spec, place), PRIVATE_DIR),
        ),
        State::Keeping(place) => Progress::Act(
            ActOf::SetMode(place_of(spec, place), PRIVATE_DIR),
        ),
        State::Resolving => Progress::Act(ActOf::Resolve(spec.state_dir.copy())),
        State::LookingAtLock => Progress::Act(ActOf::Inspect(lock_of(spec))),
        State::MakingLock => Progress::Act(ActOf::MakeFile(lock_of(spec), PRIVATE_FILE)),
        State::KeepingLock => Progress::Act(ActOf::SetMode(lock_of(spec), PRIVATE_FILE)),
        State::Locking => Progress::Act(ActOf::Lock(lock_of(spec))),
        State::MakingWork => Progress::Act(
            ActOf::MakeTemp(spec.state_dir.copy(), "omp-work-".to_owned()),
        ),
        State::KeepingWork(work) => Progress::Act(ActOf::SetMode(work, PRIVATE_DIR)),
        State::Running(work) => Progress::Act(
            ActOf::Launch(build_bwrap_command(spec, &work, omp_args)),
        ),
        State::Clearing(cleanup) => Progress::Act(ActOf::Inspect(cleanup.here)),
        State::Opening(cleanup) => Progress::Act(ActOf::SetMode(cleanup.here, PRIVATE_DIR)),
        State::Listing(cleanup) => Progress::Act(ActOf::List(cleanup.here)),
        State::Freeing(cleanup) => Progress::Act(ActOf::SetMode(cleanup.here, PRIVATE_FILE)),
        State::Removing(work, _) => Progress::Act(ActOf::Remove(work)),
        State::Discarding(work, _) => Progress::Act(ActOf::Discard(work)),
        State::Ended(result) => Progress::Ended(result),
    }
}

/// Says where a run stands, given the reports on the acts that it has called for
/// so far. `host` is asked what a run has to know before its first act.
pub fn run_omp(
    spec: &LaunchSpec,
    omp_args: &[Vec<u8>],
    host: &HostFacts,
    reports: &[Report],
) -> (r: Progress<Status>)
    ensures
        r@ == run(host@, spec@, views(omp_args@), views(reports@)),
{
    match preflight(spec, host) {
        Err(StopOf::Ask(question)) => {
            return Progress::Check(question);
        },
        Err(StopOf::Fail(error)) => {
            return Progress::Ended(Err(error));
        },
        Ok(_) => {},
    }
    let ghost all = views(reports@);
    let mut state = prepare_state(spec);
    let mut i: usize = 0;
    assert(all.take(0) =~= Seq::empty());
    while i < reports.len()
        invariant
            i <= reports.len(),
            all == views(reports@),
            state@ == state_after(spec@, all.take(i as int)),
        decreases reports.len() - i,
    {
        assert(all.take(i + 1).drop_last() =~= all.take(i as int));
        assert(all.take(i + 1).last() == reports@[i as int]@);
        state = advance(spec, state, &reports[i]);
        i += 1;
    }
    assert(all.take(all.len() as int) =~= all);
    act_for(spec, omp_args, state)
}

/// The act that a run called for before its `k`-th report.
pub open spec fn act_at(
    spec: LaunchView,
    omp_args: Seq<Seq<u8>>,
    reports: Seq<ReportView>,
    k: int,
) -> ProgressView<Status> {
    call(spec, omp_args, state_after(spec, reports.take(k)))
}

/// The `k`-th report is that an act was done.
pub open spec fn done_at(
    spec: LaunchView,
    omp_args: Seq<Seq<u8>>,
    reports: Seq<ReportView>,
    k: int,
    act: ActView,
) -> bool {
    &&& 0 <= k < reports.len()
    &&& act_at(spec, omp_args, reports, k) == ProgressView::<Status>::Act(act)
    &&& reports[k] is Done
}

/// Some report is that an act was done.
pub open spec fn was_done(
    spec: LaunchView,
    omp_args: Seq<Seq<u8>>,
    reports: Seq<ReportView>,
    act: ActView,
) -> bool {
    exists|k: int| #[trigger] done_at(spec, omp_args, reports, k, act)
}

/// The `k`-th report answers an act.
pub open spec fn answered_at(
    spec: LaunchView,
    omp_args: Seq<Seq<u8>>,
    reports: Seq<ReportView>,
    k: int,
    act: ActView,
    report: ReportView,
) -> bool {
    &&& 0 <= k < reports.len()
    &&& act_at(spec, omp_args, reports, k) == ProgressView::<Status>::Act(act)
    &&& reports[k] == report
}

proof fn lemma_one_more(spec: LaunchView, reports: Seq<ReportView>, k: int)
    requires
        0 <= k < reports.len(),
    ensures
        state_after(spec, reports.take(k + 1)) == next_state(
            spec,
            state_after(spec, reports.take(k)),
            reports[k],
        ),
{
    assert(reports.take(k + 1).drop_last() =~= reports.take(k));
}

/// Between two reports, one of which finds `p` false and the other true, stands
/// the report that made it so.
proof fn lemma_crossing(
    spec: LaunchView,
    reports: Seq<ReportView>,
    p: spec_fn(StateView) -> bool,
    from: int,
    to: int,
) -> (k: int)
    requires
        0 <= from <= to <= reports.len(),
        !p(state_after(spec, reports.take(from))),
        p(state_after(spec, reports.take(to))),
    ensures
        from <= k < to,
        !p(state_after(spec, reports.take(k))),
        p(next_state(spec, state_after(spec, reports.take(k)), reports[k])),
    decreases to - from,
{
    if from < to {
        if p(state_after(spec, reports.take(to - 1))) {
            lemma_crossing(spec, reports, p, from, to - 1)
        } else {
            lemma_one_more(spec, reports, to - 1);
            to - 1
        }
    } else {
        from
    }
}

/// What a state keeps to, the states after it keep to.
proof fn lemma_stays(
    spec: LaunchView,
    reports: Seq<ReportView>,
    p: spec_fn(StateView) -> bool,
    from: int,
    to: int,
)
    requires
        0 <= from <= to <= reports.len(),
        p(state_after(spec, reports.take(from))),
        forall|state: StateView, report: ReportView|
            p(state) ==> p(#[trigger] next_state(spec, state, report)),
    ensures
        p(state_after(spec, reports.take(to))),
    decreases to - from,
{
    if from < to {
        lemma_stays(spec, reports, p, from, to - 1);
        lemma_one_more(spec, reports, to - 1);
    }
}

pub open spec fn place_number(place: Place) -> nat {
    match place {
        Place::Hidden => 0,
        Place::Agent => 1,
        Place::State => 2,
        Place::Upper => 3,
    }
}

/// How far a state is from the start of a run that goes well; no state that a
/// failure leads to has come any way.
pub open spec fn distance(state: StateView) -> nat {
    match state {
        StateView::Looking(place) => place_number(place),
        StateView::Making(place) => place_number(place),
        StateView::Keeping(place) => place_number(place),
        StateView::Resolving => 4,
        StateView::LookingAtLock => 5,
        StateView::MakingLock => 6,
        StateView::KeepingLock => 7,
        StateView::Locking => 8,
        StateView::MakingWork => 9,
        StateView::KeepingWork(_) => 10,
        StateView::Running(_) => 11,
        _ => 0,
    }
}

/// The report that took a run past a distance.
proof fn lemma_passed(spec: LaunchView, reports: Seq<ReportView>, n: nat) -> (k: int)
    requires
        n < distance(state_after(spec, reports)),
    ensures
        0 <= k < reports.len(),
        distance(state_after(spec, reports.take(k))) <= n,
        distance(next_state(spec, state_after(spec, reports.take(k)), reports[k])) > n,
{
    assert(reports.take(reports.len() as int) =~= reports);
    assert(reports.take(0) =~= Seq::empty());
    lemma_crossing(
        spec,
        reports,
        |state: StateView| distance(state) > n,
        0,
        reports.len() as int,
    )
}

proof fn lemma_place_kept(
    spec: LaunchView,
    omp_args: Seq<Seq<u8>>,
    reports: Seq<ReportView>,
    place: Place,
)
    requires
        state_after(spec, reports) is Running,
    ensures
        was_done(
            spec,
            omp_args,
            reports,
            ActOf::MakeDir(place_path(spec, place), PRIVATE_DIR),
        ) || was_done(
            spec,
            omp_args,
            reports,
            ActOf::SetMode(place_path(spec, place), PRIVATE_DIR),
        ),
{
    let k = lemma_passed(spec, reports, place_number(place));
    let state = state_after(spec, reports.take(k));
    assert(state == StateView::Making(place) || state == StateView::Keeping(place));
    assert(done_at(
        spec,
        omp_args,
        reports,
        k,
        ActOf::MakeDir(place_path(spec, place), PRIVATE_DIR),
    ) || done_at(
        spec,
        omp_args,
        reports,
        k,
        ActOf::SetMode(place_path(spec, place), PRIVATE_DIR),
    ));
}

proof fn lemma_state_inside(spec: LaunchView, omp_args: Seq<Seq<u8>>, reports: Seq<ReportView>)
    requires
        state_after(spec, reports) is Running,
    ensures
        exists|k: int, canonical: Seq<u8>| #[trigger]
            answered_at(
                spec,
                omp_args,
                reports,
                k,
                ActOf::Resolve(spec.state_dir),
                ReportView::Path(canonical),
            ) && is_under(canonical, spec.project),
{
    let k = lemma_passed(spec, reports, 4);
    assert(state_after(spec, reports.take(k)) is Resolving);
    assert(answered_at(
        spec,
        omp_args,
        reports,
        k,
        ActOf::Resolve(spec.state_dir),
        ReportView::Path(reports[k]->Path_0),
    ));
}

proof fn lemma_locked(spec: LaunchView, omp_args: Seq<Seq<u8>>, reports: Seq<ReportView>)
    requires
        state_after(spec, reports) is Running,
    ensures
        was_done(spec, omp_args, reports, ActOf::SetMode(lock_file(spec), PRIVATE_FILE)),
        was_done(spec, omp_args, reports, ActOf::Lock(lock_file(spec))),
{
    let k = lemma_passed(spec, reports, 7);
    assert(state_after(spec, reports.take(k)) is KeepingLock);
    assert(done_at(spec, omp_args, reports, k, ActOf::SetMode(lock_file(spec), PRIVATE_FILE)));
    let k = lemma_passed(spec, reports, 8);
    assert(state_after(spec, reports.take(k)) is Locking);
    assert(done_at(spec, omp_args, reports, k, ActOf::Lock(lock_file(spec))));
}

proof fn lemma_work_kept(
    spec: LaunchView,
    omp_args: Seq<Seq<u8>>,
    reports: Seq<ReportView>,
    work: Seq<u8>,
)
    requires
        state_after(spec, reports) == StateView::Running(work),
    ensures
        was_done(spec, omp_args, reports, ActOf::SetMode(work, PRIVATE_DIR)),
        exists|k: int| #[trigger]
            answered_at(
                spec,
                omp_args,
                reports,
                k,
                ActOf::MakeTemp(spec.state_dir, "omp-work-"@),
                ReportView::Path(work),
            ),
{
    assert(reports.take(reports.len() as int) =~= reports);
    assert(reports.take(0) =~= Seq::empty());
    let k = lemma_crossing(
        spec,
        reports,
        |state: StateView| state == StateView::Running(work),
        0,
        reports.len() as int,
    );
    assert(state_after(spec, reports.take(k)) == StateView::KeepingWork(work));
    assert(done_at(spec, omp_args, reports, k, ActOf::SetMode(work, PRIVATE_DIR)));
    let j = lemma_crossing(
        spec,
        reports,
        |state: StateView| state == StateView::KeepingWork(work),
        0,
        k,
    );
    assert(state_after(spec, reports.take(j)) is MakingWork);
    assert(answered_at(
        spec,
        omp_args,
        reports,
        j,
        ActOf::MakeTemp(spec.state_dir, "omp-work-"@),
        ReportView::Path(work),
    ));
}

/// A command is launched only once the four private directories are the user's
/// alone, the state directory is known to be inside the project, the lock file
/// is the user's alone and the lock is held; and it is launched on a work
/// directory that was made for it, inside the state directory and for the user
/// alone.
pub proof fn law_launch_is_prepared(
    spec: LaunchView,
    omp_args: Seq<Seq<u8>>,
    reports: Seq<ReportView>,
    command: CommandView,
)
    requires
        call(spec, omp_args, state_after(spec, reports)) == ProgressView::<Status>::Act(
            ActOf::Launch(command),
        ),
    ensures
        forall|place: Place|
            was_done(
                spec,
                omp_args,
                reports,
                ActOf::MakeDir(#[trigger] place_path(spec, place), PRIVATE_DIR),
            ) || was_done(
                spec,
                omp_args,
                reports,
                ActOf::SetMode(place_path(spec, place), PRIVATE_DIR),
            ),
        exists|k: int, canonical: Seq<u8>| #[trigger]
            answered_at(
                spec,
                omp_args,
                reports,
                k,
                ActOf::Resolve(spec.state_dir),
                ReportView::Path(canonical),
            ) && is_under(canonical, spec.project),
        was_done(spec, omp_args, reports, ActOf::SetMode(lock_file(spec), PRIVATE_FILE)),
        was_done(spec, omp_args, reports, ActOf::Lock(lock_file(spec))),
        exists|k: int, work: Seq<u8>| #[trigger]
            answered_at(
                spec,
                omp_args,
                reports,
                k,
                ActOf::MakeTemp(spec.state_dir, "omp-work-"@),
                ReportView::Path(work),
            ) && was_done(spec, omp_args, reports, ActOf::SetMode(work, PRIVATE_DIR)) && command
                == bwrap_command(spec, work, omp_args),
{
    assert forall|place: Place|
        was_done(
            spec,
            omp_args,
            reports,
            ActOf::MakeDir(#[trigger] place_path(spec, place), PRIVATE_DIR),
        ) || was_done(
            spec,
            omp_args,
            reports,
            ActOf::SetMode(place_path(spec, place), PRIVATE_DIR),
        ) by {
        lemma_place_kept(spec, omp_args, reports, place);
    }
    lemma_state_inside(spec, omp_args, reports);
    lemma_locked(spec, omp_args, reports);
    lemma_work_kept(spec, omp_args, reports, state_after(spec, reports)->Running_0);
}

/// The command has been run, or the run has failed.
pub open spec fn past_launch(state: StateView) -> bool {
    ||| state is Clearing
    ||| state is Opening
    ||| state is Listing
    ||| state is Freeing
    ||| state is Removing
    ||| state is Discarding
    ||| state is Ended
}

/// A command that was launched is not launched again.
pub proof fn law_launch_happens_once(
    spec: LaunchView,
    omp_args: Seq<Seq<u8>>,
    reports: Seq<ReportView>,
    i: int,
    j: int,
)
    requires
        0 <= i < j <= reports.len(),
        act_at(spec, omp_args, reports, i) matches ProgressView::Act(ActOf::Launch(_)),
        reports[i] is Exit || reports[i] is Failed,
    ensures
        !(act_at(spec, omp_args, reports, j) matches ProgressView::Act(ActOf::Launch(_))),
{
    lemma_one_more(spec, reports, i);
    lemma_stays(spec, reports, |state: StateView| past_launch(state), i + 1, j);
}

/// The states in which a run carries the status that its command ended with.
pub open spec fn carries(state: StateView, status: Status) -> bool {
    match state {
        StateView::Clearing(cleanup) => cleanup.launched == Ok::<Status, ErrorView>(status),
        StateView::Opening(cleanup) => cleanup.launched == Ok::<Status, ErrorView>(status),
        StateView::Listing(cleanup) => cleanup.launched == Ok::<Status, ErrorView>(status),
        StateView::Freeing(cleanup) => cleanup.launched == Ok::<Status, ErrorView>(status),
        StateView::Removing(_, launched) => launched == Ok::<Status, ErrorView>(status),
        StateView::Discarding(_, result) => result == Ok::<Status, ErrorView>(status),
        StateView::Ended(result) => result == Ok::<Status, ErrorView>(status),
        _ => false,
    }
}

/// The states in which a run has a work directory.
pub open spec fn has_work(state: StateView, work: Seq<u8>) -> bool {
    match state {
        StateView::KeepingWork(dir) => dir == work,
        StateView::Running(dir) => dir == work,
        StateView::Clearing(cleanup) => cleanup.work == work,
        StateView::Opening(cleanup) => cleanup.work == work,
        StateView::Listing(cleanup) => cleanup.work == work,
        StateView::Freeing(cleanup) => cleanup.work == work,
        StateView::Removing(dir, _) => dir == work,
        StateView::Discarding(dir, _) => dir == work,
        _ => false,
    }
}

/// A run ends well only if its command was launched and ended with the status
/// that the run returns, and the work directory was removed after that.
pub proof fn law_success_is_earned(
    spec: LaunchView,
    omp_args: Seq<Seq<u8>>,
    reports: Seq<ReportView>,
    status: Status,
)
    requires
        call(spec, omp_args, state_after(spec, reports)) == ProgressView::<Status>::Ended(
            Ok(status),
        ),
    ensures
        exists|i: int, j: int, work: Seq<u8>|
            i < j && #[trigger] answered_at(
                spec,
                omp_args,
                reports,
                i,
                ActOf::Launch(bwrap_command(spec, work, omp_args)),
                ReportView::Exit(status),
            ) && #[trigger] done_at(spec, omp_args, reports, j, ActOf::Remove(work)),
{
    let n = reports.len() as int;
    assert(reports.take(n) =~= reports);
    assert(reports.take(0) =~= Seq::empty());
    let i = lemma_crossing(spec, reports, |state: StateView| carries(state, status), 0, n);
    let work = state_after(spec, reports.take(i))->Running_0;
    assert(state_after(spec, reports.take(i)) == StateView::Running(work));
    assert(reports[i] == ReportView::Exit(status));
    lemma_one_more(spec, reports, i);
    let j = lemma_crossing(spec, reports, |state: StateView| state is Ended, i + 1, n);
    lemma_one_more(spec, reports, j);
    lemma_stays(
        spec,
        reports,
        |state: StateView| state is Ended && state == state_after(spec, reports.take(j + 1)),
        j + 1,
        n,
    );
    let before = state_after(spec, reports.take(j));
    lemma_stays(
        spec,
        reports,
        |state: StateView| has_work(state, work) || state is Ended,
        i + 1,
        j,
    );
    assert(before is Removing || before is Discarding);
    lemma_stays(
        spec,
        reports,
        |state: StateView| !(state is Discarding && state->Discarding_1 is Ok),
        0,
        j,
    );
    assert(before is Removing);
    assert(done_at(spec, omp_args, reports, j, ActOf::Remove(work)));
    assert(answered_at(
        spec,
        omp_args,
        reports,
        i,
        ActOf::Launch(bwrap_command(spec, work, omp_args)),
        ReportView::Exit(status),
    ));
}

/// The states in which a run carries the failure of its launch.
pub open spec fn carries_failure(state: StateView, error: ErrorView) -> bool {
    match state {
        StateView::Clearing(cleanup) => cleanup.launched == Err::<Status, ErrorView>(error),
        StateView::Opening(cleanup) => cleanup.launched == Err::<Status, ErrorView>(error),
        StateView::Listing(cleanup) => cleanup.launched == Err::<Status, ErrorView>(error),
        StateView::Freeing(cleanup) => cleanup.launched == Err::<Status, ErrorView>(error),
        StateView::Removing(_, launched) => launched == Err::<Status, ErrorView>(error),
        StateView::Discarding(_, result) => result == Err::<Status, ErrorView>(error),
        StateView::Ended(result) => result == Err::<Status, ErrorView>(error),
        _ => false,
    }
}

/// A failure to launch is what the run returns, whatever its clearing meets with.
pub proof fn law_launch_failure_is_kept(
    spec: LaunchView,
    omp_args: Seq<Seq<u8>>,
    reports: Seq<ReportView>,
    i: int,
    command: CommandView,
    why: Seq<char>,
    result: Result<Status, ErrorView>,
)
    requires
        answered_at(spec, omp_args, reports, i, ActOf::Launch(command), ReportView::Failed(why)),
        call(spec, omp_args, state_after(spec, reports)) == ProgressView::<Status>::Ended(result),
    ensures
        result == Err::<Status, ErrorView>(
            in_context(
                seq![text("failed to launch Bubblewrap "@)].push(path(spec.bwrap)).push(
                    text("; required overlay isolation was not weakened"@),
                ),
                host_failure(why),
            ),
        ),
{
    let n = reports.len() as int;
    let error = in_context(
        seq![text("failed to launch Bubblewrap "@)].push(path(spec.bwrap)).push(
            text("; required overlay isolation was not weakened"@),
        ),
        host_failure(why),
    );
    assert(reports.take(n) =~= reports);
    assert(state_after(spec, reports.take(i)) is Running);
    lemma_one_more(spec, reports, i);
    lemma_stays(spec, reports, |state: StateView| carries_failure(state, error), i + 1, n);
}

/// A run that made a work directory does not end before it has tried to remove
/// it.
pub proof fn law_work_is_removed(
    spec: LaunchView,
    omp_args: Seq<Seq<u8>>,
    reports: Seq<ReportView>,
    i: int,
    work: Seq<u8>,
)
    requires
        answered_at(
            spec,
            omp_args,
            reports,
            i,
            ActOf::MakeTemp(spec.state_dir, "omp-work-"@),
            ReportView::Path(work),
        ),
        call(spec, omp_args, state_after(spec, reports)) is Ended,
    ensures
        exists|j: int|
            i < j < reports.len() && (reports[j] is Done || reports[j] is Failed) && (
            #[trigger] act_at(spec, omp_args, reports, j) == ProgressView::<Status>::Act(
                ActOf::Remove(work),
            ) || act_at(spec, omp_args, reports, j) == ProgressView::<Status>::Act(
                ActOf::Discard(work),
            )),
{
    let n = reports.len() as int;
    assert(reports.take(n) =~= reports);
    assert(state_after(spec, reports.take(i)) is MakingWork);
    lemma_one_more(spec, reports, i);
    let j = lemma_crossing(spec, reports, |state: StateView| !has_work(state, work), i + 1, n);
    assert(act_at(spec, omp_args, reports, j) == ProgressView::<Status>::Act(ActOf::Remove(work))
        || act_at(spec, omp_args, reports, j) == ProgressView::<Status>::Act(
        ActOf::Discard(work),
    ));
}

/// A link in the place of a private directory or of the lock ends a run: nothing
/// is done after it is seen, and nothing is launched.
pub proof fn law_links_end_a_run(
    spec: LaunchView,
    omp_args: Seq<Seq<u8>>,
    reports: Seq<ReportView>,
    i: int,
)
    requires
        0 <= i < reports.len(),
        reports[i] == ReportView::Entry(EntryOf::Symlink),
        state_after(spec, reports.take(i)) is Looking || state_after(
            spec,
            reports.take(i),
        ) is LookingAtLock,
    ensures
        forall|j: int|
            i < j <= reports.len() ==> (#[trigger] act_at(
                spec,
                omp_args,
                reports,
                j,
            ) matches ProgressView::Ended(Err(_))),
{
    lemma_one_more(spec, reports, i);
    assert forall|j: int| i < j <= reports.len() implies (#[trigger] act_at(
        spec,
        omp_args,
        reports,
        j,
    ) matches ProgressView::Ended(Err(_))) by {
        lemma_stays(
            spec,
            reports,
            |state: StateView| state matches StateView::Ended(Err(_)),
            i + 1,
            j,
        );
    }
}

/// The `k`-th report tells of a path.
pub open spec fn told_at(reports: Seq<ReportView>, k: int, p: Seq<u8>) -> bool {
    &&& 0 <= k < reports.len()
    &&& match reports[k] {
        ReportView::Path(made) => made == p,
        ReportView::Listing(entries) => entries.contains(ReplyOf::Got(p)),
        _ => false,
    }
}

/// Some report tells of a path.
pub open spec fn told_of(reports: Seq<ReportView>, p: Seq<u8>) -> bool {
    exists|k: int| #[trigger] told_at(reports, k, p)
}

pub open spec fn all_told(
    reports: Seq<ReportView>,
    pending: Seq<ReplyOf<Seq<u8>, Seq<char>>>,
) -> bool {
    forall|i: int|
        0 <= i < pending.len() && #[trigger] pending[i] is Got ==> told_of(
            reports,
            pending[i]->Got_0,
        )
}

pub open spec fn cleanup_told(reports: Seq<ReportView>, cleanup: CleanupView) -> bool {
    &&& told_of(reports, cleanup.work)
    &&& told_of(reports, cleanup.here)
    &&& all_told(reports, cleanup.pending)
}

/// The reports told of every path that the state holds.
pub open spec fn state_told(reports: Seq<ReportView>, state: StateView) -> bool {
    match state {
        StateView::KeepingWork(work) => told_of(reports, work),
        StateView::Running(work) => told_of(reports, work),
        StateView::Clearing(cleanup) => cleanup_told(reports, cleanup),
        StateView::Opening(cleanup) => cleanup_told(reports, cleanup),
        StateView::Listing(cleanup) => cleanup_told(reports, cleanup),
        StateView::Freeing(cleanup) => cleanup_told(reports, cleanup),
        StateView::Removing(work, _) => told_of(reports, work),
        StateView::Discarding(work, _) => told_of(reports, work),
        _ => true,
    }
}

proof fn lemma_still_told(reports: Seq<ReportView>)
    requires
        reports.len() > 0,
    ensures
        forall|p: Seq<u8>| told_of(reports.drop_last(), p) ==> #[trigger] told_of(reports, p),
{
    assert forall|p: Seq<u8>| told_of(reports.drop_last(), p) implies #[trigger] told_of(
        reports,
        p,
    ) by {
        let k = choose|k: int| #[trigger] told_at(reports.drop_last(), k, p);
        assert(told_at(reports, k, p));
    }
}

proof fn lemma_cleared_told(reports: Seq<ReportView>, cleanup: CleanupView)
    requires
        cleanup_told(reports, cleanup),
    ensures
        state_told(reports, cleared(cleanup)),
{
    let pending = cleanup.pending;
    if pending.len() > 0 && pending.last() is Got {
        assert(pending[pending.len() - 1] is Got);
        assert(all_told(reports, pending.drop_last())) by {
            assert forall|i: int|
                0 <= i < pending.drop_last().len()
                    && #[trigger] pending.drop_last()[i] is Got implies told_of(
                reports,
                pending.drop_last()[i]->Got_0,
            ) by {
                assert(pending[i] is Got);
            }
        }
    }
}

proof fn lemma_state_told(spec: LaunchView, reports: Seq<ReportView>)
    ensures
        state_told(reports, state_after(spec, reports)),
    decreases reports.len(),
{
    if reports.len() > 0 {
        let front = reports.drop_last();
        let report = reports.last();
        let before = state_after(spec, front);
        lemma_state_told(spec, front);
        lemma_still_told(reports);
        let last = reports.len() - 1;
        if report is Path {
            assert(told_at(reports, last, report->Path_0));
        }
        match before {
            StateView::Clearing(cleanup) => {
                assert(cleanup_told(reports, cleanup));
                lemma_cleared_told(reports, cleanup);
            },
            StateView::Opening(cleanup) => {
                assert(cleanup_told(reports, cleanup));
            },
            StateView::Freeing(cleanup) => {
                assert(cleanup_told(reports, cleanup));
                lemma_cleared_told(reports, cleanup);
            },
            StateView::Listing(cleanup) => {
                assert(cleanup_told(reports, cleanup));
                if let ReportView::Listing(entries) = report {
                    let pending = cleanup.pending + entries.reverse();
                    assert forall|i: int|
                        0 <= i < pending.len() && #[trigger] pending[i] is Got implies told_of(
                        reports,
                        pending[i]->Got_0,
                    ) by {
                        if i < cleanup.pending.len() {
                            assert(cleanup.pending[i] is Got);
                        } else {
                            let j = entries.len() - 1 - (i - cleanup.pending.len());
                            assert(entries[j] == pending[i]);
                            assert(entries.contains(ReplyOf::Got(pending[i]->Got_0)));
                            assert(told_at(reports, last, pending[i]->Got_0));
                        }
                    }
                    lemma_cleared_told(reports, CleanupView { pending, ..cleanup });
                }
            },
            _ => {},
        }
    }
}

/// A run changes nothing on the host but its private directories and its lock,
/// which become the user's alone, and what its work directory holds: it makes no
/// other directory or file, gives a mode to no other path, and removes nothing
/// but a directory that it was told of.
pub proof fn law_acts_keep_to_their_places(
    spec: LaunchView,
    omp_args: Seq<Seq<u8>>,
    reports: Seq<ReportView>,
)
    ensures
        match call(spec, omp_args, state_after(spec, reports)) {
            ProgressView::Act(ActOf::MakeDir(p, mode)) => mode == PRIVATE_DIR && exists|
                place: Place,
            | #[trigger] place_path(spec, place) == p,
            ProgressView::Act(ActOf::MakeFile(p, mode)) => mode == PRIVATE_FILE && p == lock_file(
                spec,
            ),
            ProgressView::Act(ActOf::Lock(p)) => p == lock_file(spec),
            ProgressView::Act(ActOf::MakeTemp(p, _)) => p == spec.state_dir,
            ProgressView::Act(ActOf::SetMode(p, mode)) => (mode == PRIVATE_DIR || mode
                == PRIVATE_FILE) && ((exists|place: Place| #[trigger] place_path(spec, place) == p)
                || p == lock_file(spec) || told_of(reports, p)),
            ProgressView::Act(ActOf::Remove(p)) => told_of(reports, p),
            ProgressView::Act(ActOf::Discard(p)) => told_of(reports, p),
            _ => true,
        },
{
    lemma_state_told(spec, reports);
    match state_after(spec, reports) {
        StateView::Making(place) => {
            assert(place_path(spec, place) == place_path(spec, place));
        },
        StateView::Keeping(place) => {
            assert(place_path(spec, place) == place_path(spec, place));
        },
        _ => {},
    }
}

} // verus!
