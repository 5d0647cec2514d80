//! The course of a run, told by its acts and the reports on them: what a run does
//! while all goes well, where it ends when something does not, and how it clears up.
use vstd::prelude::*;
use vstd::string::*;

use crate::bytes::bytes_of;
use crate::command::bwrap_command;
use crate::error::{failure, in_context, path, text, ErrorView};
use crate::host::{host_failure, FactsView, ReplyOf};
use crate::path::{components, is_under, join};
use crate::preflight::fit;
use crate::sandbox::{
    cleared, lock_file, next_state, place_path, run, state_after, ActOf, ActView, CleanupView,
    EntryOf, Place, ProgressView, ReportView, StateView, Status,
};
use crate::types::LaunchView;

verus! {

/// The directories that a run keeps to the user, in the order in which it sees to
/// them.
pub open spec fn private_dirs(spec: LaunchView) -> Seq<Seq<u8>> {
    seq![
        join(spec.project, bytes_of(".sbox"@)),
        join(spec.home, bytes_of(".omp/agent"@)),
        spec.state_dir,
        join(spec.state_dir, bytes_of("omp-upper"@)),
    ]
}

pub open spec fn state_lock(spec: LaunchView) -> Seq<u8> {
    join(spec.state_dir, bytes_of("omp.lock"@))
}

/// How many reports stand before the launch of a run in which all goes well.
pub open spec fn launch_turn() -> int {
    15
}

/// The act of a run in which all went well up to the `k`-th report. A private
/// directory that was missing is made, one that was there becomes the user's alone;
/// the lock is made, becomes the user's alone and is taken; and the command is
/// launched on a work directory that was made for it.
pub open spec fn agenda(
    spec: LaunchView,
    omp_args: Seq<Seq<u8>>,
    reports: Seq<ReportView>,
    k: int,
) -> ActView {
    if k < 8 {
        let dir = private_dirs(spec)[k / 2];
        if k % 2 == 0 {
            ActOf::Inspect(dir)
        } else if reports[k - 1] matches ReportView::Entry(EntryOf::Missing(_)) {
            ActOf::MakeDir(dir, 0o700)
        } else {
            ActOf::SetMode(dir, 0o700)
        }
    } else if k == 8 {
        ActOf::Resolve(spec.state_dir)
    } else if k == 9 {
        ActOf::Inspect(state_lock(spec))
    } else if k == 10 {
        ActOf::MakeFile(state_lock(spec), 0o600)
    } else if k == 11 {
        ActOf::SetMode(state_lock(spec), 0o600)
    } else if k == 12 {
        ActOf::Lock(state_lock(spec))
    } else if k == 13 {
        ActOf::MakeTemp(spec.state_dir, "omp-work-"@)
    } else if k == 14 {
        ActOf::SetMode(reports[13]->Path_0, 0o700)
    } else {
        ActOf::Launch(bwrap_command(spec, reports[13]->Path_0, omp_args))
    }
}

/// The `k`-th report of a run is that its act went well: a private directory is
/// missing or is one; the state directory is inside the project; the lock is a
/// regular file, or is missing or cannot be told; and all else was done.
pub open spec fn goes_well(spec: LaunchView, k: int, report: ReportView) -> bool {
    if k < 8 && k % 2 == 0 {
        report matches ReportView::Entry(entry) && (entry is Missing || entry is Directory)
    } else if k == 8 {
        report matches ReportView::Path(canonical) && is_under(canonical, spec.project)
    } else if k == 9 {
        report matches ReportView::Entry(entry) && (entry is Missing || entry is Unknown
            || entry is File)
    } else if k == 13 {
        report is Path
    } else {
        report is Done
    }
}

/// A run has gone well so far.
pub open spec fn all_well(spec: LaunchView, reports: Seq<ReportView>, n: int) -> bool {
    &&& components(spec.state_dir) == components(join(spec.project, bytes_of(".sbox/state"@)))
    &&& 0 <= n <= launch_turn()
    &&& n <= reports.len()
    &&& forall|k: int| 0 <= k < n ==> goes_well(spec, k, #[trigger] reports[k])
}

spec fn place_at(k: int) -> Place {
    if k < 2 {
        Place::Hidden
    } else if k < 4 {
        Place::Agent
    } else if k < 6 {
        Place::State
    } else {
        Place::Upper
    }
}

/// The state of a run in which all went well.
spec fn stage(reports: Seq<ReportView>, k: int) -> StateView {
    if k < 8 {
        if k % 2 == 0 {
            StateView::Looking(place_at(k))
        } else if reports[k - 1] matches ReportView::Entry(EntryOf::Missing(_)) {
            StateView::Making(place_at(k))
        } else {
            StateView::Keeping(place_at(k))
        }
    } else if k == 8 {
        StateView::Resolving
    } else if k == 9 {
        StateView::LookingAtLock
    } else if k == 10 {
        StateView::MakingLock
    } else if k == 11 {
        StateView::KeepingLock
    } else if k == 12 {
        StateView::Locking
    } else if k == 13 {
        StateView::MakingWork
    } else if k == 14 {
        StateView::KeepingWork(reports[13]->Path_0)
    } else {
        StateView::Running(reports[13]->Path_0)
    }
}

proof fn lemma_report(spec: LaunchView, reports: Seq<ReportView>, k: int)
    requires
        0 <= k < reports.len(),
    ensures
        state_after(spec, reports.take(k + 1)) == next_state(
            spec,
            state_after(spec, reports.take(k)),
            reports[k],
        ),
{
    assert(reports.take(k + 1).drop_last() =~= reports.take(k));
}

proof fn lemma_stage(spec: LaunchView, reports: Seq<ReportView>, n: int)
    requires
        all_well(spec, reports, n),
    ensures
        state_after(spec, reports.take(n)) == stage(reports, n),
    decreases n,
{
    if n > 0 {
        lemma_stage(spec, reports, n - 1);
        lemma_report(spec, reports, n - 1);
        assert(goes_well(spec, n - 1, reports[n - 1]));
    } else {
        assert(reports.take(0) =~= Seq::empty());
    }
}

proof fn lemma_places(spec: LaunchView, k: int)
    requires
        0 <= k < 8,
    ensures
        place_path(spec, place_at(k)) == private_dirs(spec)[k / 2],
{
}

/// A run in which all goes well does what it has to do, act by act, and comes to the
/// launch: nothing that goes well ends it.
pub proof fn law_a_good_run_comes_to_the_launch(
    facts: FactsView,
    spec: LaunchView,
    omp_args: Seq<Seq<u8>>,
    reports: Seq<ReportView>,
)
    requires
        fit(facts, spec) is Ok,
        all_well(spec, reports, reports.len() as int),
    ensures
        run(facts, spec, omp_args, reports) == ProgressView::<Status>::Act(
            agenda(spec, omp_args, reports, reports.len() as int),
        ),
        reports.len() == launch_turn() ==> (run(
            facts,
            spec,
            omp_args,
            reports,
        ) matches ProgressView::Act(ActOf::Launch(_))),
{
    let n = reports.len() as int;
    lemma_stage(spec, reports, n);
    assert(reports.take(n) =~= reports);
    if n < 8 {
        lemma_places(spec, n);
    }
}

/// The report answers the act: it is one that such an act can come to.
pub open spec fn answers(act: ActView, report: ReportView) -> bool {
    match act {
        ActOf::Inspect(_) => report is Entry,
        ActOf::Resolve(_) | ActOf::MakeTemp(_, _) => report is Path || report is Failed,
        ActOf::Lock(_) => report is Done || report is NotOpened || report is Failed,
        ActOf::Launch(_) => report is Exit || report is Failed,
        ActOf::List(_) => report is Listing || report is Failed,
        _ => report is Done || report is Failed,
    }
}

/// What is said where the `k`-th report, before the work directory is made, is one
/// that does not go well.
pub open spec fn complaint(spec: LaunchView, reports: Seq<ReportView>, k: int) -> ErrorView {
    let dir = private_dirs(spec)[k / 2];
    let lock = state_lock(spec);
    match reports[k] {
        ReportView::Entry(entry) => if k == 9 {
            failure(seq![text("state lock "@), path(lock), text(" must be a regular file"@)])
        } else {
            match entry {
                EntryOf::Unknown(why) => in_context(
                    seq![text("cannot inspect "@), path(dir)],
                    host_failure(why),
                ),
                EntryOf::Symlink => failure(
                    seq![
                        text("sandbox state component "@),
                        path(dir),
                        text(" must not be a symlink"@),
                    ],
                ),
                _ => failure(
                    seq![
                        text("sandbox state component "@),
                        path(dir),
                        text(" is not a directory"@),
                    ],
                ),
            }
        },
        ReportView::Path(canonical) => failure(
            seq![
                text("sandbox state "@),
                path(canonical),
                text(" escapes project "@),
                path(spec.project),
            ],
        ),
        ReportView::NotOpened(why) => in_context(
            seq![text("cannot open state lock "@), path(lock)],
            host_failure(why),
        ),
        ReportView::Failed(why) => if k < 8 {
            if reports[k - 1] matches ReportView::Entry(EntryOf::Missing(_)) {
                in_context(
                    seq![text("cannot create private state directory "@), path(dir)],
                    host_failure(why),
                )
            } else {
                host_failure(why)
            }
        } else if k == 10 {
            in_context(seq![text("cannot create state lock "@), path(lock)], host_failure(why))
        } else if k == 12 {
            in_context(seq![text("cannot exclusively lock "@), path(lock)], host_failure(why))
        } else if k == 13 {
            in_context(
                seq![text("cannot create OverlayFS work directory in "@), path(spec.state_dir)],
                host_failure(why),
            )
        } else {
            host_failure(why)
        },
        _ => Seq::empty(),
    }
}

proof fn lemma_two<A>(a: A, b: A)
    ensures
        seq![a].push(b) == seq![a, b],
{
    assert(seq![a].push(b) =~= seq![a, b]);
}

proof fn lemma_three<A>(a: A, b: A, c: A)
    ensures
        seq![a].push(b).push(c) == seq![a, b, c],
{
    assert(seq![a].push(b).push(c) =~= seq![a, b, c]);
}

/// The first act that does not go well ends a run, and what it ends with says what
/// was wrong; but a work directory that was made is removed first.
#[verifier::spinoff_prover]
#[verifier::rlimit(40)]
pub proof fn law_the_first_failure_ends_a_run(
    facts: FactsView,
    spec: LaunchView,
    omp_args: Seq<Seq<u8>>,
    reports: Seq<ReportView>,
)
    requires
        fit(facts, spec) is Ok,
        0 < reports.len() <= launch_turn(),
        all_well(spec, reports, reports.len() - 1),
        answers(
            agenda(spec, omp_args, reports, reports.len() - 1),
            reports[reports.len() - 1],
        ),
        !goes_well(spec, reports.len() - 1, reports[reports.len() - 1]),
    ensures
        run(facts, spec, omp_args, reports) == if reports.len() == launch_turn() {
            ProgressView::<Status>::Act(ActOf::Discard(reports[13]->Path_0))
        } else {
            ProgressView::<Status>::Ended(Err(complaint(spec, reports, reports.len() - 1)))
        },
        reports.len() == launch_turn() ==> forall|last: ReportView|
            last is Done || last is Failed ==> #[trigger] run(
                facts,
                spec,
                omp_args,
                reports.push(last),
            ) == ProgressView::<Status>::Ended(Err(host_failure(reports[14]->Failed_0))),
{
    let n = reports.len() - 1;
    lemma_stage(spec, reports, n);
    lemma_report(spec, reports, n);
    assert(reports.take(n + 1) =~= reports);
    let dir = private_dirs(spec)[n / 2];
    let lock = state_lock(spec);
    assert(lock == lock_file(spec));
    if n < 8 {
        lemma_places(spec, n);
    }
    match reports[n] {
        ReportView::Entry(entry) => {
            lemma_three(text("state lock "@), path(lock), text(" must be a regular file"@));
            lemma_two(text("cannot inspect "@), path(dir));
            lemma_three(
                text("sandbox state component "@),
                path(dir),
                text(" must not be a symlink"@),
            );
            lemma_three(text("sandbox state component "@), path(dir), text(" is not a directory"@));
        },
        ReportView::Path(canonical) => {
            assert(seq![text("sandbox state "@)].push(path(canonical)).push(
                text(" escapes project "@),
            ).push(path(spec.project)) =~= seq![
                text("sandbox state "@),
                path(canonical),
                text(" escapes project "@),
                path(spec.project),
            ]);
        },
        ReportView::NotOpened(_) => {
            lemma_two(text("cannot open state lock "@), path(lock));
        },
        ReportView::Failed(_) => {
            lemma_two(text("cannot create private state directory "@), path(dir));
            lemma_two(text("cannot create state lock "@), path(lock));
            lemma_two(text("cannot exclusively lock "@), path(lock));
            lemma_two(
                text("cannot create OverlayFS work directory in "@),
                path(spec.state_dir),
            );
        },
        _ => {},
    }
    if n == 14 {
        assert forall|last: ReportView| last is Done || last is Failed implies #[trigger] run(
            facts,
            spec,
            omp_args,
            reports.push(last),
        ) == ProgressView::<Status>::Ended(Err(host_failure(reports[14]->Failed_0))) by {
            assert(reports.push(last).drop_last() =~= reports);
        }
    }
}

/// A state directory that is not the project's own ends a run before its first act.
pub proof fn law_a_misplaced_state_ends_a_run(
    facts: FactsView,
    spec: LaunchView,
    omp_args: Seq<Seq<u8>>,
    reports: Seq<ReportView>,
)
    requires
        fit(facts, spec) is Ok,
        components(spec.state_dir) != components(join(spec.project, bytes_of(".sbox/state"@))),
    ensures
        run(facts, spec, omp_args, reports) == ProgressView::<Status>::Ended(
            Err(
                failure(
                    seq![
                        text("state directory "@),
                        path(spec.state_dir),
                        text(" must be exactly "@),
                        path(join(spec.project, bytes_of(".sbox/state"@))),
                    ],
                ),
            ),
        ),
    decreases reports.len(),
{
    let expected = join(spec.project, bytes_of(".sbox/state"@));
    assert(seq![text("state directory "@)].push(path(spec.state_dir)).push(
        text(" must be exactly "@),
    ).push(path(expected)) =~= seq![
        text("state directory "@),
        path(spec.state_dir),
        text(" must be exactly "@),
        path(expected),
    ]);
    if reports.len() > 0 {
        law_a_misplaced_state_ends_a_run(facts, spec, omp_args, reports.drop_last());
    }
}

/// What the host has to have before a run decides first: without an answer it is
/// asked for, and a host that does not fit ends the run without an act.
pub proof fn law_the_host_comes_first(
    facts: FactsView,
    spec: LaunchView,
    omp_args: Seq<Seq<u8>>,
    reports: Seq<ReportView>,
)
    ensures
        fit(facts, spec) is Err ==> (run(facts, spec, omp_args, reports) is Check || run(
            facts,
            spec,
            omp_args,
            reports,
        ) is Ended),
        run(facts, spec, omp_args, reports) is Act ==> fit(facts, spec) is Ok,
{
}

/// A report that does not answer the act leaves the run where it was, and a run that
/// is over stays over.
pub proof fn law_only_answers_count(
    facts: FactsView,
    spec: LaunchView,
    omp_args: Seq<Seq<u8>>,
    reports: Seq<ReportView>,
    report: ReportView,
)
    ensures
        run(facts, spec, omp_args, reports) matches ProgressView::Act(act) && !answers(act, report)
            ==> run(facts, spec, omp_args, reports.push(report)) == run(
            facts,
            spec,
            omp_args,
            reports,
        ),
        run(facts, spec, omp_args, reports) is Ended ==> run(
            facts,
            spec,
            omp_args,
            reports.push(report),
        ) == run(facts, spec, omp_args, reports),
{
    assert(reports.push(report).drop_last() =~= reports);
}

/// Where a run stood before its `k`-th report.
pub open spec fn turn(
    facts: FactsView,
    spec: LaunchView,
    omp_args: Seq<Seq<u8>>,
    reports: Seq<ReportView>,
    k: int,
) -> ProgressView<Status> {
    run(facts, spec, omp_args, reports.take(k))
}

/// The work directory `work` was made by the `m`-th report, and the `i`-th is on the
/// launch of the command.
pub open spec fn launched_on(
    facts: FactsView,
    spec: LaunchView,
    omp_args: Seq<Seq<u8>>,
    reports: Seq<ReportView>,
    m: int,
    i: int,
    work: Seq<u8>,
) -> bool {
    &&& 0 <= m < i < reports.len()
    &&& turn(facts, spec, omp_args, reports, m) == ProgressView::<Status>::Act(
        ActOf::MakeTemp(spec.state_dir, "omp-work-"@),
    )
    &&& reports[m] == ReportView::Path(work)
    &&& turn(facts, spec, omp_args, reports, i) matches ProgressView::Act(ActOf::Launch(_))
    &&& reports[i] is Exit || reports[i] is Failed
}

/// What the launch came to.
pub open spec fn launch_result(spec: LaunchView, report: ReportView) -> Result<
    Status,
    ErrorView,
> {
    match report {
        ReportView::Exit(status) => Ok(status),
        ReportView::Failed(why) => Err(
            in_context(
                seq![
                    text("failed to launch Bubblewrap "@),
                    path(spec.bwrap),
                    text("; required overlay isolation was not weakened"@),
                ],
                host_failure(why),
            ),
        ),
        _ => Err(Seq::empty()),
    }
}

/// A result that the trouble of a clearing can leave: a failure, and that of the
/// launch where there was one.
spec fn is_troubled(launched: Result<Status, ErrorView>, result: Result<Status, ErrorView>) -> bool {
    &&& result is Err
    &&& launched is Err ==> result == launched
}

/// A run on `work` that has ended its launch with `launched`.
spec fn clears(state: StateView, work: Seq<u8>, launched: Result<Status, ErrorView>) -> bool {
    match state {
        StateView::Clearing(cleanup)
        | StateView::Opening(cleanup)
        | StateView::Listing(cleanup)
        | StateView::Freeing(cleanup) => cleanup.work == work && cleanup.launched == launched,
        StateView::Removing(dir, result) => dir == work && result == launched,
        StateView::Discarding(dir, result) => dir == work && is_troubled(launched, result),
        StateView::Ended(result) => result == launched || is_troubled(launched, result),
        _ => false,
    }
}

spec fn works_on(state: StateView, work: Seq<u8>) -> bool {
    match state {
        StateView::KeepingWork(dir) => dir == work,
        StateView::Running(dir) => dir == work,
        StateView::Clearing(_)
        | StateView::Opening(_)
        | StateView::Listing(_)
        | StateView::Freeing(_)
        | StateView::Removing(_, _)
        | StateView::Discarding(_, _)
        | StateView::Ended(_) => true,
        _ => false,
    }
}

proof fn lemma_works_on(
    spec: LaunchView,
    reports: Seq<ReportView>,
    m: int,
    n: int,
    work: Seq<u8>,
)
    requires
        0 <= m < n <= reports.len(),
        state_after(spec, reports.take(m)) is MakingWork,
        reports[m] == ReportView::Path(work),
    ensures
        works_on(state_after(spec, reports.take(n)), work),
    decreases n,
{
    lemma_report(spec, reports, n - 1);
    if n - 1 > m {
        lemma_works_on(spec, reports, m, n - 1, work);
    }
}

proof fn lemma_clears(
    facts: FactsView,
    spec: LaunchView,
    omp_args: Seq<Seq<u8>>,
    reports: Seq<ReportView>,
    m: int,
    i: int,
    work: Seq<u8>,
    n: int,
)
    requires
        fit(facts, spec) is Ok,
        launched_on(facts, spec, omp_args, reports, m, i, work),
        i < n <= reports.len(),
    ensures
        clears(state_after(spec, reports.take(n)), work, launch_result(spec, reports[i])),
        n == i + 1 ==> state_after(spec, reports.take(n)) == StateView::Clearing(
            CleanupView {
                work,
                launched: launch_result(spec, reports[i]),
                here: work,
                pending: Seq::empty(),
            },
        ),
    decreases n,
{
    lemma_report(spec, reports, n - 1);
    if n - 1 > i {
        lemma_clears(facts, spec, omp_args, reports, m, i, work, n - 1);
    } else {
        lemma_works_on(spec, reports, m, i, work);
        lemma_three(
            text("failed to launch Bubblewrap "@),
            path(spec.bwrap),
            text("; required overlay isolation was not weakened"@),
        );
    }
}

/// After the launch a run turns to its work directory. Of each path there it asks
/// what it is: a directory is opened to the user alone and then listed, from its
/// first entry on; anything else but a link becomes the user's alone. What cannot be
/// done makes it discard the directory and end with a failure; else it removes the
/// directory and ends with what the launch came to, unless that fails.
#[verifier::spinoff_prover]
#[verifier::rlimit(40)]
pub proof fn law_clearing_goes_step_by_step(
    facts: FactsView,
    spec: LaunchView,
    omp_args: Seq<Seq<u8>>,
    reports: Seq<ReportView>,
    m: int,
    i: int,
    work: Seq<u8>,
    report: ReportView,
)
    requires
        fit(facts, spec) is Ok,
        launched_on(facts, spec, omp_args, reports, m, i, work),
    ensures
        ({
            let now = run(facts, spec, omp_args, reports);
            let next = run(facts, spec, omp_args, reports.push(report));
            let launched = launch_result(spec, reports[i]);
            let discard = ProgressView::<Status>::Act(ActOf::Discard(work));
            &&& reports.len() == i + 1 ==> now == ProgressView::<Status>::Act(ActOf::Inspect(work))
            &&& match now {
                ProgressView::Act(ActOf::Inspect(p)) => match report {
                    ReportView::Entry(EntryOf::Directory) => next == ProgressView::<Status>::Act(
                        ActOf::SetMode(p, 0o700),
                    ),
                    ReportView::Entry(EntryOf::File)
                    | ReportView::Entry(EntryOf::Other) => next == ProgressView::<Status>::Act(
                        ActOf::SetMode(p, 0o600),
                    ),
                    ReportView::Entry(EntryOf::Missing(_))
                    | ReportView::Entry(EntryOf::Unknown(_)) => next == discard,
                    _ => true,
                },
                ProgressView::Act(ActOf::SetMode(p, mode)) => {
                    &&& mode == 0o700 || mode == 0o600
                    &&& report is Failed ==> next == discard
                    &&& report is Done && mode == 0o700 ==> next == ProgressView::<Status>::Act(
                        ActOf::List(p),
                    )
                },
                ProgressView::Act(ActOf::List(_)) => {
                    &&& report is Failed ==> next == discard
                    &&& report matches ReportView::Listing(entries) ==> (entries.len() > 0 ==> next
                        == (match entries[0] {
                        ReplyOf::Got(p) => ProgressView::<Status>::Act(ActOf::Inspect(p)),
                        ReplyOf::Failed(_) => discard,
                    }))
                },
                ProgressView::Act(ActOf::Remove(dir)) => {
                    &&& dir == work
                    &&& report is Done ==> next == ProgressView::Ended(launched)
                    &&& report matches ReportView::Failed(why) ==> next == ProgressView::Ended(
                        if launched is Err {
                            launched
                        } else {
                            Err(
                                in_context(
                                    seq![
                                        text("cannot remove temporary OverlayFS work directory"@),
                                    ],
                                    host_failure(why),
                                ),
                            )
                        },
                    )
                },
                ProgressView::Act(ActOf::Discard(dir)) => {
                    &&& dir == work
                    &&& report is Done || report is Failed ==> {
                        &&& next matches ProgressView::Ended(Err(_))
                        &&& launched is Err ==> next == ProgressView::Ended(launched)
                    }
                },
                ProgressView::Act(_) => false,
                ProgressView::Ended(result) => result == launched || result is Err,
                _ => false,
            }
        }),
{
    let n = reports.len() as int;
    assert(reports.take(n) =~= reports);
    assert(reports.push(report).drop_last() =~= reports);
    lemma_clears(facts, spec, omp_args, reports, m, i, work, n);
    let state = state_after(spec, reports);
    if let StateView::Listing(cleanup) = state {
        if let ReportView::Listing(entries) = report {
            if entries.len() > 0 {
                let pending = cleanup.pending + entries.reverse();
                assert(pending.last() == entries[0]);
            }
        }
    }
}

/// The host's words on an act that made a run give up its clearing are what the run
/// ends with, unless the launch had failed.
#[verifier::spinoff_prover]
#[verifier::rlimit(40)]
pub proof fn law_clearing_trouble_is_told(
    facts: FactsView,
    spec: LaunchView,
    omp_args: Seq<Seq<u8>>,
    reports: Seq<ReportView>,
    m: int,
    i: int,
    work: Seq<u8>,
    why: Seq<char>,
    last: ReportView,
)
    requires
        fit(facts, spec) is Ok,
        launched_on(facts, spec, omp_args, reports, m, i, work),
        reports[i] is Exit,
        run(facts, spec, omp_args, reports) matches ProgressView::Act(act) && (act is SetMode
            || act is List),
        last is Done || last is Failed,
    ensures
        run(facts, spec, omp_args, reports.push(ReportView::Failed(why)).push(last))
            == ProgressView::<Status>::Ended(Err(host_failure(why))),
{
    let n = reports.len() as int;
    let more = reports.push(ReportView::Failed(why));
    assert(reports.take(n) =~= reports);
    assert(more.drop_last() =~= reports);
    assert(more.push(last).drop_last() =~= more);
    lemma_clears(facts, spec, omp_args, reports, m, i, work, n);
    assert(state_after(spec, more) == next_state(
        spec,
        state_after(spec, reports),
        ReportView::Failed(why),
    ));
    assert(state_after(spec, more) == StateView::Discarding(work, Err(host_failure(why))));
    assert(state_after(spec, more.push(last)) == next_state(
        spec,
        state_after(spec, more),
        last,
    ));
}

/// After the `i`-th report and before the `n`-th, a path was seen to be something.
pub open spec fn was_seen(
    facts: FactsView,
    spec: LaunchView,
    omp_args: Seq<Seq<u8>>,
    reports: Seq<ReportView>,
    i: int,
    n: int,
    p: Seq<u8>,
    entry: EntryOf<Seq<char>>,
) -> bool {
    exists|j: int|
        i < j < n && #[trigger] turn(facts, spec, omp_args, reports, j) == ProgressView::<
            Status,
        >::Act(ActOf::Inspect(p)) && reports[j] == ReportView::Entry(entry)
}

/// After the `i`-th report and before the `n`-th, a path was given a mode.
pub open spec fn was_set(
    facts: FactsView,
    spec: LaunchView,
    omp_args: Seq<Seq<u8>>,
    reports: Seq<ReportView>,
    i: int,
    n: int,
    p: Seq<u8>,
    mode: u32,
) -> bool {
    exists|j: int|
        i < j < n && #[trigger] turn(facts, spec, omp_args, reports, j) == ProgressView::<
            Status,
        >::Act(ActOf::SetMode(p, mode)) && reports[j] is Done
}

/// The `k`-th report lists a directory that holds `entry`.
pub open spec fn lists_entry(
    facts: FactsView,
    spec: LaunchView,
    omp_args: Seq<Seq<u8>>,
    reports: Seq<ReportView>,
    k: int,
    entry: ReplyOf<Seq<u8>, Seq<char>>,
) -> bool {
    &&& turn(facts, spec, omp_args, reports, k) matches ProgressView::Act(ActOf::List(_))
    &&& reports[k] matches ReportView::Listing(entries) && entries.contains(entry)
}

/// After the `i`-th report and before the `n`-th, a path was listed.
pub open spec fn was_listed(
    facts: FactsView,
    spec: LaunchView,
    omp_args: Seq<Seq<u8>>,
    reports: Seq<ReportView>,
    i: int,
    n: int,
    p: Seq<u8>,
) -> bool {
    exists|j: int|
        i < j < n && #[trigger] turn(facts, spec, omp_args, reports, j) == ProgressView::<
            Status,
        >::Act(ActOf::List(p)) && reports[j] is Listing
}

/// A path was made removable: it is a link; or a directory that was opened to the
/// user alone and listed; or something else that became the user's alone.
pub open spec fn was_freed(
    facts: FactsView,
    spec: LaunchView,
    omp_args: Seq<Seq<u8>>,
    reports: Seq<ReportView>,
    i: int,
    n: int,
    p: Seq<u8>,
) -> bool {
    ||| was_seen(facts, spec, omp_args, reports, i, n, p, EntryOf::Symlink)
    ||| was_seen(facts, spec, omp_args, reports, i, n, p, EntryOf::Directory) && was_set(
        facts,
        spec,
        omp_args,
        reports,
        i,
        n,
        p,
        0o700,
    ) && was_listed(facts, spec, omp_args, reports, i, n, p)
    ||| (was_seen(facts, spec, omp_args, reports, i, n, p, EntryOf::File) || was_seen(
        facts,
        spec,
        omp_args,
        reports,
        i,
        n,
        p,
        EntryOf::Other,
    )) && was_set(facts, spec, omp_args, reports, i, n, p, 0o600)
}

spec fn has_pending(state: StateView) -> Option<CleanupView> {
    match state {
        StateView::Clearing(cleanup)
        | StateView::Opening(cleanup)
        | StateView::Listing(cleanup)
        | StateView::Freeing(cleanup) => Some(cleanup),
        _ => None,
    }
}

/// What has been done by now for the path that a clearing is at.
spec fn is_begun(
    facts: FactsView,
    spec: LaunchView,
    omp_args: Seq<Seq<u8>>,
    reports: Seq<ReportView>,
    i: int,
    n: int,
    state: StateView,
) -> bool {
    match state {
        StateView::Opening(cleanup) => was_seen(
            facts,
            spec,
            omp_args,
            reports,
            i,
            n,
            cleanup.here,
            EntryOf::Directory,
        ),
        StateView::Listing(cleanup) => was_seen(
            facts,
            spec,
            omp_args,
            reports,
            i,
            n,
            cleanup.here,
            EntryOf::Directory,
        ) && was_set(facts, spec, omp_args, reports, i, n, cleanup.here, 0o700),
        StateView::Freeing(cleanup) => was_seen(
            facts,
            spec,
            omp_args,
            reports,
            i,
            n,
            cleanup.here,
            EntryOf::File,
        ) || was_seen(facts, spec, omp_args, reports, i, n, cleanup.here, EntryOf::Other),
        _ => true,
    }
}

/// A path that has come up is yet to be turned to, is being seen to, or was made
/// removable.
spec fn is_looked_after(
    facts: FactsView,
    spec: LaunchView,
    omp_args: Seq<Seq<u8>>,
    reports: Seq<ReportView>,
    i: int,
    n: int,
    state: StateView,
    entry: ReplyOf<Seq<u8>, Seq<char>>,
) -> bool {
    ||| state is Discarding
    ||| state is Ended
    ||| has_pending(state) matches Some(cleanup) && (cleanup.pending.contains(entry) || entry
        == ReplyOf::<Seq<u8>, Seq<char>>::Got(cleanup.here))
    ||| entry matches ReplyOf::Got(p) && was_freed(facts, spec, omp_args, reports, i, n, p)
}

proof fn lemma_seen_stays(
    facts: FactsView,
    spec: LaunchView,
    omp_args: Seq<Seq<u8>>,
    reports: Seq<ReportView>,
    i: int,
    n: int,
    p: Seq<u8>,
    entry: EntryOf<Seq<char>>,
)
    requires
        was_seen(facts, spec, omp_args, reports, i, n, p, entry),
    ensures
        was_seen(facts, spec, omp_args, reports, i, n + 1, p, entry),
{
    let j = choose|j: int|
        i < j < n && #[trigger] turn(facts, spec, omp_args, reports, j) == ProgressView::<
            Status,
        >::Act(ActOf::Inspect(p)) && reports[j] == ReportView::Entry(entry);
    assert(turn(facts, spec, omp_args, reports, j) == ProgressView::<Status>::Act(
        ActOf::Inspect(p),
    ));
}

proof fn lemma_set_stays(
    facts: FactsView,
    spec: LaunchView,
    omp_args: Seq<Seq<u8>>,
    reports: Seq<ReportView>,
    i: int,
    n: int,
    p: Seq<u8>,
    mode: u32,
)
    requires
        was_set(facts, spec, omp_args, reports, i, n, p, mode),
    ensures
        was_set(facts, spec, omp_args, reports, i, n + 1, p, mode),
{
    let j = choose|j: int|
        i < j < n && #[trigger] turn(facts, spec, omp_args, reports, j) == ProgressView::<
            Status,
        >::Act(ActOf::SetMode(p, mode)) && reports[j] is Done;
    assert(turn(facts, spec, omp_args, reports, j) == ProgressView::<Status>::Act(
        ActOf::SetMode(p, mode),
    ));
}

proof fn lemma_listed_stays(
    facts: FactsView,
    spec: LaunchView,
    omp_args: Seq<Seq<u8>>,
    reports: Seq<ReportView>,
    i: int,
    n: int,
    p: Seq<u8>,
)
    requires
        was_listed(facts, spec, omp_args, reports, i, n, p),
    ensures
        was_listed(facts, spec, omp_args, reports, i, n + 1, p),
{
    let j = choose|j: int|
        i < j < n && #[trigger] turn(facts, spec, omp_args, reports, j) == ProgressView::<
            Status,
        >::Act(ActOf::List(p)) && reports[j] is Listing;
    assert(turn(facts, spec, omp_args, reports, j) == ProgressView::<Status>::Act(ActOf::List(p)));
}

proof fn lemma_freed_stays(
    facts: FactsView,
    spec: LaunchView,
    omp_args: Seq<Seq<u8>>,
    reports: Seq<ReportView>,
    i: int,
    n: int,
    p: Seq<u8>,
)
    requires
        was_freed(facts, spec, omp_args, reports, i, n, p),
    ensures
        was_freed(facts, spec, omp_args, reports, i, n + 1, p),
{
    if was_seen(facts, spec, omp_args, reports, i, n, p, EntryOf::Symlink) {
        lemma_seen_stays(facts, spec, omp_args, reports, i, n, p, EntryOf::Symlink);
    } else if was_seen(facts, spec, omp_args, reports, i, n, p, EntryOf::Directory) && was_set(
        facts,
        spec,
        omp_args,
        reports,
        i,
        n,
        p,
        0o700,
    ) && was_listed(facts, spec, omp_args, reports, i, n, p) {
        lemma_seen_stays(facts, spec, omp_args, reports, i, n, p, EntryOf::Directory);
        lemma_set_stays(facts, spec, omp_args, reports, i, n, p, 0o700);
        lemma_listed_stays(facts, spec, omp_args, reports, i, n, p);
    } else {
        lemma_set_stays(facts, spec, omp_args, reports, i, n, p, 0o600);
        if was_seen(facts, spec, omp_args, reports, i, n, p, EntryOf::File) {
            lemma_seen_stays(facts, spec, omp_args, reports, i, n, p, EntryOf::File);
        } else {
            lemma_seen_stays(facts, spec, omp_args, reports, i, n, p, EntryOf::Other);
        }
    }
}

/// What is done for the path that a clearing is at, by one more report.
#[verifier::spinoff_prover]
#[verifier::rlimit(40)]
proof fn lemma_begun(
    facts: FactsView,
    spec: LaunchView,
    omp_args: Seq<Seq<u8>>,
    reports: Seq<ReportView>,
    i: int,
    n: int,
)
    requires
        fit(facts, spec) is Ok,
        0 <= i < n < reports.len(),
        has_pending(state_after(spec, reports.take(n))) is Some,
        is_begun(
            facts,
            spec,
            omp_args,
            reports,
            i,
            n,
            state_after(spec, reports.take(n)),
        ),
    ensures
        ({
            let state = state_after(spec, reports.take(n));
            let next = state_after(spec, reports.take(n + 1));
            let here = has_pending(state)->0.here;
            &&& is_begun(facts, spec, omp_args, reports, i, n + 1, next)
            &&& {
                ||| next is Discarding
                ||| was_freed(facts, spec, omp_args, reports, i, n + 1, here)
                ||| has_pending(next) matches Some(cleanup) && cleanup.here == here
                    && cleanup.pending == has_pending(state)->0.pending
            }
        }),
{
    let state = state_after(spec, reports.take(n));
    let cleanup = has_pending(state)->0;
    let here = cleanup.here;
    lemma_report(spec, reports, n);
    let now = turn(facts, spec, omp_args, reports, n);
    match state {
        StateView::Clearing(_) => {
            assert(now == ProgressView::<Status>::Act(ActOf::Inspect(here)));
            if let ReportView::Entry(entry) = reports[n] {
                assert(was_seen(facts, spec, omp_args, reports, i, n + 1, here, entry));
            }
        },
        StateView::Opening(_) => {
            assert(now == ProgressView::<Status>::Act(ActOf::SetMode(here, 0o700)));
            lemma_seen_stays(facts, spec, omp_args, reports, i, n, here, EntryOf::Directory);
            if reports[n] is Done {
                assert(was_set(facts, spec, omp_args, reports, i, n + 1, here, 0o700));
            }
        },
        StateView::Listing(_) => {
            assert(now == ProgressView::<Status>::Act(ActOf::List(here)));
            lemma_seen_stays(facts, spec, omp_args, reports, i, n, here, EntryOf::Directory);
            lemma_set_stays(facts, spec, omp_args, reports, i, n, here, 0o700);
            if reports[n] is Listing {
                assert(was_listed(facts, spec, omp_args, reports, i, n + 1, here));
            }
        },
        StateView::Freeing(_) => {
            assert(now == ProgressView::<Status>::Act(ActOf::SetMode(here, 0o600)));
            if was_seen(facts, spec, omp_args, reports, i, n, here, EntryOf::File) {
                lemma_seen_stays(facts, spec, omp_args, reports, i, n, here, EntryOf::File);
            } else {
                lemma_seen_stays(facts, spec, omp_args, reports, i, n, here, EntryOf::Other);
            }
            if reports[n] is Done {
                assert(was_set(facts, spec, omp_args, reports, i, n + 1, here, 0o600));
            }
        },
        _ => {},
    }
}

/// What is pending after one more report holds what was, but for what the clearing
/// turns to, and what the report lists.
proof fn lemma_pending(
    spec: LaunchView,
    reports: Seq<ReportView>,
    n: int,
    entry: ReplyOf<Seq<u8>, Seq<char>>,
)
    requires
        0 <= n < reports.len(),
        has_pending(state_after(spec, reports.take(n))) is Some,
        has_pending(state_after(spec, reports.take(n)))->0.pending.contains(entry) || (state_after(
            spec,
            reports.take(n),
        ) is Listing && reports[n] is Listing && reports[n]->Listing_0.contains(entry)),
    ensures
        ({
            let next = state_after(spec, reports.take(n + 1));
            ||| next is Discarding
            ||| has_pending(next) matches Some(cleanup) && (cleanup.pending.contains(entry) || entry
                == ReplyOf::<Seq<u8>, Seq<char>>::Got(cleanup.here))
        }),
{
    let state = state_after(spec, reports.take(n));
    let cleanup = has_pending(state)->0;
    lemma_report(spec, reports, n);
    let pending = match reports[n] {
        ReportView::Listing(entries) => if state is Listing {
            cleanup.pending + entries.reverse()
        } else {
            cleanup.pending
        },
        _ => cleanup.pending,
    };
    assert(pending.contains(entry)) by {
        if cleanup.pending.contains(entry) {
            assert(pending[cleanup.pending.index_of(entry)] == entry);
        } else if let ReportView::Listing(entries) = reports[n] {
            let k = entries.index_of(entry);
            assert(entries.reverse()[entries.len() - 1 - k] == entry);
            assert(pending[cleanup.pending.len() + (entries.len() - 1 - k)] == entry);
        }
    }
    let k = pending.index_of(entry);
    if k < pending.len() - 1 {
        assert(pending.drop_last()[k] == entry);
    } else {
        assert(pending.last() == entry);
    }
}

#[verifier::spinoff_prover]
#[verifier::rlimit(40)]
proof fn lemma_looked_after(
    facts: FactsView,
    spec: LaunchView,
    omp_args: Seq<Seq<u8>>,
    reports: Seq<ReportView>,
    m: int,
    i: int,
    work: Seq<u8>,
    n: int,
    entry: ReplyOf<Seq<u8>, Seq<char>>,
)
    requires
        fit(facts, spec) is Ok,
        launched_on(facts, spec, omp_args, reports, m, i, work),
        i < n <= reports.len(),
        entry == ReplyOf::<Seq<u8>, Seq<char>>::Got(work) || exists|k: int|
            i < k < n && #[trigger] lists_entry(facts, spec, omp_args, reports, k, entry),
    ensures
        is_looked_after(
            facts,
            spec,
            omp_args,
            reports,
            i,
            n,
            state_after(spec, reports.take(n)),
            entry,
        ),
    decreases n,
{
    lemma_clears(facts, spec, omp_args, reports, m, i, work, n);
    if n > i + 1 {
        let before = state_after(spec, reports.take(n - 1));
        lemma_clears(facts, spec, omp_args, reports, m, i, work, n - 1);
        lemma_report(spec, reports, n - 1);
        lemma_is_begun(facts, spec, omp_args, reports, m, i, work, n - 1);
        if has_pending(before) is Some {
            lemma_begun(facts, spec, omp_args, reports, i, n - 1);
        }
        if entry == ReplyOf::<Seq<u8>, Seq<char>>::Got(work) || exists|k: int|
            i < k < n - 1 && #[trigger] lists_entry(facts, spec, omp_args, reports, k, entry) {
            lemma_looked_after(facts, spec, omp_args, reports, m, i, work, n - 1, entry);
            if entry is Got && was_freed(
                facts,
                spec,
                omp_args,
                reports,
                i,
                n - 1,
                entry->Got_0,
            ) {
                lemma_freed_stays(facts, spec, omp_args, reports, i, n - 1, entry->Got_0);
            } else if let Some(cleanup) = has_pending(before) {
                if cleanup.pending.contains(entry) {
                    lemma_pending(spec, reports, n - 1, entry);
                }
            }
        } else {
            let k = choose|k: int|
                i < k < n && #[trigger] lists_entry(facts, spec, omp_args, reports, k, entry);
            assert(k == n - 1);
            assert(before is Listing);
            lemma_pending(spec, reports, n - 1, entry);
        }
    } else if entry != ReplyOf::<Seq<u8>, Seq<char>>::Got(work) {
        let k = choose|k: int|
            i < k < n && #[trigger] lists_entry(facts, spec, omp_args, reports, k, entry);
        assert(false);
    }
}

proof fn lemma_is_begun(
    facts: FactsView,
    spec: LaunchView,
    omp_args: Seq<Seq<u8>>,
    reports: Seq<ReportView>,
    m: int,
    i: int,
    work: Seq<u8>,
    n: int,
)
    requires
        fit(facts, spec) is Ok,
        launched_on(facts, spec, omp_args, reports, m, i, work),
        i < n <= reports.len(),
    ensures
        is_begun(facts, spec, omp_args, reports, i, n, state_after(spec, reports.take(n))),
    decreases n,
{
    lemma_clears(facts, spec, omp_args, reports, m, i, work, n);
    if n > i + 1 {
        lemma_is_begun(facts, spec, omp_args, reports, m, i, work, n - 1);
        lemma_clears(facts, spec, omp_args, reports, m, i, work, n - 1);
        lemma_report(spec, reports, n - 1);
        if has_pending(state_after(spec, reports.take(n - 1))) is Some {
            lemma_begun(facts, spec, omp_args, reports, i, n - 1);
        }
    }
}

/// A work directory is removed only once it and everything that was listed below it
/// was made removable, and every entry could be read.
pub proof fn law_removal_comes_last(
    facts: FactsView,
    spec: LaunchView,
    omp_args: Seq<Seq<u8>>,
    reports: Seq<ReportView>,
    m: int,
    i: int,
    work: Seq<u8>,
)
    requires
        fit(facts, spec) is Ok,
        launched_on(facts, spec, omp_args, reports, m, i, work),
        run(facts, spec, omp_args, reports) == ProgressView::<Status>::Act(ActOf::Remove(work)),
    ensures
        was_freed(facts, spec, omp_args, reports, i, reports.len() as int, work),
        forall|k: int, entry: ReplyOf<Seq<u8>, Seq<char>>|
            i < k < reports.len() && #[trigger] lists_entry(
                facts,
                spec,
                omp_args,
                reports,
                k,
                entry,
            ) ==> entry is Got && was_freed(
                facts,
                spec,
                omp_args,
                reports,
                i,
                reports.len() as int,
                entry->Got_0,
            ),
{
    lemma_freed_at_last(facts, spec, omp_args, reports, m, i, work, ReplyOf::Got(work));
    assert forall|k: int, entry: ReplyOf<Seq<u8>, Seq<char>>|
        i < k < reports.len() && #[trigger] lists_entry(
            facts,
            spec,
            omp_args,
            reports,
            k,
            entry,
        ) implies entry is Got && was_freed(
        facts,
        spec,
        omp_args,
        reports,
        i,
        reports.len() as int,
        entry->Got_0,
    ) by {
        lemma_freed_at_last(facts, spec, omp_args, reports, m, i, work, entry);
    }
}

proof fn lemma_freed_at_last(
    facts: FactsView,
    spec: LaunchView,
    omp_args: Seq<Seq<u8>>,
    reports: Seq<ReportView>,
    m: int,
    i: int,
    work: Seq<u8>,
    entry: ReplyOf<Seq<u8>, Seq<char>>,
)
    requires
        fit(facts, spec) is Ok,
        launched_on(facts, spec, omp_args, reports, m, i, work),
        run(facts, spec, omp_args, reports) == ProgressView::<Status>::Act(ActOf::Remove(work)),
        entry == ReplyOf::<Seq<u8>, Seq<char>>::Got(work) || exists|k: int|
            i < k < reports.len() && #[trigger] lists_entry(
                facts,
                spec,
                omp_args,
                reports,
                k,
                entry,
            ),
    ensures
        entry is Got,
        was_freed(facts, spec, omp_args, reports, i, reports.len() as int, entry->Got_0),
{
    let n = reports.len() as int;
    assert(reports.take(n) =~= reports);
    assert(state_after(spec, reports) is Removing);
    lemma_looked_after(facts, spec, omp_args, reports, m, i, work, n, entry);
}

/// A report on the clearing goes well: the path is there, what was to be done is
/// done, and every entry of a directory could be read.
pub open spec fn clears_well(report: ReportView) -> bool {
    match report {
        ReportView::Entry(entry) => !(entry is Missing) && !(entry is Unknown),
        ReportView::Listing(entries) => forall|k: int|
            0 <= k < entries.len() ==> #[trigger] entries[k] is Got,
        ReportView::Done => true,
        _ => false,
    }
}

spec fn has_names(state: StateView) -> bool {
    has_pending(state) matches Some(cleanup) ==> names_only(cleanup.pending)
}

spec fn names_only(pending: Seq<ReplyOf<Seq<u8>, Seq<char>>>) -> bool {
    forall|k: int| 0 <= k < pending.len() ==> #[trigger] pending[k] is Got
}

proof fn lemma_next_name(cleanup: CleanupView)
    requires
        names_only(cleanup.pending),
    ensures
        has_names(cleared(cleanup)),
        !(cleared(cleanup) is Discarding),
        !(cleared(cleanup) is Ended),
{
    let pending = cleanup.pending;
    if pending.len() > 0 {
        assert(pending[pending.len() - 1] is Got);
        assert forall|k: int| 0 <= k < pending.drop_last().len() implies #[trigger] pending.drop_last()[k] is Got by {
            assert(pending[k] is Got);
        }
    }
}

#[verifier::spinoff_prover]
#[verifier::rlimit(40)]
proof fn lemma_clears_well(
    facts: FactsView,
    spec: LaunchView,
    omp_args: Seq<Seq<u8>>,
    reports: Seq<ReportView>,
    m: int,
    i: int,
    work: Seq<u8>,
    n: int,
)
    requires
        fit(facts, spec) is Ok,
        launched_on(facts, spec, omp_args, reports, m, i, work),
        i < n <= reports.len(),
        forall|k: int| i < k < n ==> clears_well(#[trigger] reports[k]),
    ensures
        has_names(state_after(spec, reports.take(n))),
        !(state_after(spec, reports.take(n)) is Discarding),
        state_after(spec, reports.take(n)) matches StateView::Ended(result) ==> result
            == launch_result(spec, reports[i]),
    decreases n,
{
    lemma_clears(facts, spec, omp_args, reports, m, i, work, n);
    if n > i + 1 {
        lemma_clears_well(facts, spec, omp_args, reports, m, i, work, n - 1);
        lemma_clears(facts, spec, omp_args, reports, m, i, work, n - 1);
        lemma_report(spec, reports, n - 1);
        assert(clears_well(reports[n - 1]));
        let before = state_after(spec, reports.take(n - 1));
        if let Some(cleanup) = has_pending(before) {
            lemma_next_name(cleanup);
        }
        if let StateView::Listing(cleanup) = before {
            if let ReportView::Listing(entries) = reports[n - 1] {
                let pending = cleanup.pending + entries.reverse();
                assert forall|k: int| 0 <= k < pending.len() implies #[trigger] pending[k] is Got by {
                    if k >= cleanup.pending.len() {
                        let j = entries.len() - 1 - (k - cleanup.pending.len());
                        assert(entries[j] is Got);
                    }
                }
                lemma_next_name(CleanupView { pending, ..cleanup });
            }
        }
    }
}

/// A clearing in which all goes well discards nothing, and the run then ends with
/// what the launch came to.
pub proof fn law_a_good_clearing_keeps_the_result(
    facts: FactsView,
    spec: LaunchView,
    omp_args: Seq<Seq<u8>>,
    reports: Seq<ReportView>,
    m: int,
    i: int,
    work: Seq<u8>,
)
    requires
        fit(facts, spec) is Ok,
        launched_on(facts, spec, omp_args, reports, m, i, work),
        forall|k: int| i < k < reports.len() ==> clears_well(#[trigger] reports[k]),
    ensures
        !(run(facts, spec, omp_args, reports) matches ProgressView::Act(ActOf::Discard(_))),
        run(facts, spec, omp_args, reports) matches ProgressView::Ended(result) ==> result
            == launch_result(spec, reports[i]),
{
    let n = reports.len() as int;
    assert(reports.take(n) =~= reports);
    lemma_clears(facts, spec, omp_args, reports, m, i, work, n);
    lemma_clears_well(facts, spec, omp_args, reports, m, i, work, n);
}

/// What one report changes in the number of paths that have yet to be made removable: a
/// link is left alone, what became the user's alone is done with, and a directory that
/// was listed is done with as well, but what it holds is not.
pub open spec fn change(act: ProgressView<Status>, report: ReportView) -> int {
    match (act, report) {
        (ProgressView::Act(ActOf::Inspect(_)), ReportView::Entry(EntryOf::Symlink)) => -1,
        (ProgressView::Act(ActOf::SetMode(_, mode)), ReportView::Done) => if mode == 0o600 {
            -1
        } else {
            0
        },
        (ProgressView::Act(ActOf::List(_)), ReportView::Listing(entries)) => entries.len() - 1,
        _ => 0,
    }
}

/// How many paths have yet to be made removable before the `n`-th report, the work
/// directory being the first of them.
pub open spec fn outstanding(
    facts: FactsView,
    spec: LaunchView,
    omp_args: Seq<Seq<u8>>,
    reports: Seq<ReportView>,
    i: int,
    n: int,
) -> int
    decreases n,
{
    if n <= i + 1 || n <= 0 {
        1
    } else {
        outstanding(facts, spec, omp_args, reports, i, n - 1) + change(
            turn(facts, spec, omp_args, reports, n - 1),
            reports[n - 1],
        )
    }
}

proof fn lemma_pending_count(cleanup: CleanupView)
    requires
        names_only(cleanup.pending),
    ensures
        cleanup.pending.len() == 0 ==> cleared(cleanup) is Removing,
        cleanup.pending.len() > 0 ==> (has_pending(cleared(cleanup)) matches Some(next)
            && next.pending.len() == cleanup.pending.len() - 1),
{
    let pending = cleanup.pending;
    if pending.len() > 0 {
        assert(pending[pending.len() - 1] is Got);
    }
}

#[verifier::spinoff_prover]
#[verifier::rlimit(40)]
proof fn lemma_outstanding(
    facts: FactsView,
    spec: LaunchView,
    omp_args: Seq<Seq<u8>>,
    reports: Seq<ReportView>,
    m: int,
    i: int,
    work: Seq<u8>,
    n: int,
)
    requires
        fit(facts, spec) is Ok,
        launched_on(facts, spec, omp_args, reports, m, i, work),
        i < n <= reports.len(),
        forall|k: int| i < k < n ==> clears_well(#[trigger] reports[k]),
    ensures
        ({
            let left = outstanding(facts, spec, omp_args, reports, i, n);
            let state = state_after(spec, reports.take(n));
            match has_pending(state) {
                Some(cleanup) => left == cleanup.pending.len() + 1,
                None => left == 0 && (state is Removing || state is Ended),
            }
        }),
    decreases n,
{
    lemma_clears(facts, spec, omp_args, reports, m, i, work, n);
    if n > i + 1 {
        let before = state_after(spec, reports.take(n - 1));
        lemma_outstanding(facts, spec, omp_args, reports, m, i, work, n - 1);
        lemma_clears(facts, spec, omp_args, reports, m, i, work, n - 1);
        lemma_clears_well(facts, spec, omp_args, reports, m, i, work, n - 1);
        lemma_report(spec, reports, n - 1);
        assert(clears_well(reports[n - 1]));
        let report = reports[n - 1];
        let now = turn(facts, spec, omp_args, reports, n - 1);
        match before {
            StateView::Clearing(cleanup) => {
                assert(now == ProgressView::<Status>::Act(ActOf::Inspect(cleanup.here)));
                lemma_pending_count(cleanup);
            },
            StateView::Opening(cleanup) => {
                assert(now == ProgressView::<Status>::Act(ActOf::SetMode(cleanup.here, 0o700)));
            },
            StateView::Listing(cleanup) => {
                assert(now == ProgressView::<Status>::Act(ActOf::List(cleanup.here)));
                if let ReportView::Listing(entries) = report {
                    let pending = cleanup.pending + entries.reverse();
                    assert forall|k: int| 0 <= k < pending.len() implies (
                    #[trigger] pending[k]) is Got by {
                        if k >= cleanup.pending.len() {
                            let j = entries.len() - 1 - (k - cleanup.pending.len());
                            assert(entries[j] is Got);
                        }
                    }
                    lemma_pending_count(CleanupView { pending, ..cleanup });
                }
            },
            StateView::Freeing(cleanup) => {
                assert(now == ProgressView::<Status>::Act(ActOf::SetMode(cleanup.here, 0o600)));
                lemma_pending_count(cleanup);
            },
            StateView::Removing(dir, _) => {
                assert(now == ProgressView::<Status>::Act(ActOf::Remove(dir)));
            },
            _ => {
                assert(now is Ended);
            },
        }
    }
}

/// A clearing in which all goes well removes the work directory as soon as nothing is
/// left that has yet to be made removable, and not before.
pub proof fn law_a_good_clearing_comes_to_its_end(
    facts: FactsView,
    spec: LaunchView,
    omp_args: Seq<Seq<u8>>,
    reports: Seq<ReportView>,
    m: int,
    i: int,
    work: Seq<u8>,
)
    requires
        fit(facts, spec) is Ok,
        launched_on(facts, spec, omp_args, reports, m, i, work),
        forall|k: int| i < k < reports.len() ==> clears_well(#[trigger] reports[k]),
    ensures
        ({
            let now = run(facts, spec, omp_args, reports);
            let left = outstanding(facts, spec, omp_args, reports, i, reports.len() as int);
            &&& left >= 0
            &&& left == 0 <==> now == ProgressView::<Status>::Act(ActOf::Remove(work)) || now
                == ProgressView::Ended(launch_result(spec, reports[i]))
        }),
{
    let n = reports.len() as int;
    assert(reports.take(n) =~= reports);
    lemma_clears(facts, spec, omp_args, reports, m, i, work, n);
    lemma_clears_well(facts, spec, omp_args, reports, m, i, work, n);
    lemma_outstanding(facts, spec, omp_args, reports, m, i, work, n);
}

} // verus!
