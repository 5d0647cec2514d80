//! The program as a whole, from its command line to its exit code.
use vstd::prelude::*;

use crate::cli::{launch, state_dir_of, Cli};
use crate::env::HostEnv;
use crate::host::{FactsView, HostFacts, StopOf, StopView};
use crate::sandbox::{
    first_state, run, run_omp, Place, Progress, ProgressView, Report, ReportView, StateView, Status,
};
use crate::types::LaunchView;
use crate::views::views;

verus! {

broadcast use crate::views::group_views;

/// What the program says of how its command ended: the command's own code, or
/// one that stands for the signal that ended it; a code out of range counts as
/// a failure.
pub open spec fn exit_code(status: Status) -> u8 {
    let code: int = match status.code {
        Some(code) => code as int,
        None => match status.signal {
            Some(signal) => 128 + signal,
            None => 129,
        },
    };
    if 0 <= code <= 255 {
        code as u8
    } else {
        1
    }
}

/// The exit code that stands for a status.
pub fn code_of(status: Status) -> (r: u8)
    ensures
        r == exit_code(status),
{
    let code: i32 = match status.code {
        Some(code) => code,
        None => {
            let signal: i32 = match status.signal {
                Some(signal) => signal,
                None => 1,
            };
            match signal.checked_add(128) {
                Some(code) => code,
                None => {
                    return 1;
                },
            }
        },
    };
    if 0 <= code && code <= 255 {
        code as u8
    } else {
        1
    }
}

/// Where the program stands.
pub open spec fn execution(
    facts: FactsView,
    vars: Seq<(Seq<u8>, Seq<u8>)>,
    cli: Cli,
    checks: FactsView,
    reports: Seq<ReportView>,
) -> ProgressView<u8> {
    match launch(
        facts,
        vars,
        cli.project@,
        views(cli.allow_read@),
        views(cli.pass_env@),
    ) {
        Err(StopOf::Ask(question)) => ProgressView::Ask(question),
        Err(StopOf::Fail(error)) => ProgressView::Ended(Err(error)),
        Ok(spec) => match run(checks, spec, views(cli.omp_args@), reports) {
            ProgressView::Ask(question) => ProgressView::Ask(question),
            ProgressView::Check(question) => ProgressView::Check(question),
            ProgressView::Act(act) => ProgressView::Act(act),
            ProgressView::Ended(Err(error)) => ProgressView::Ended(Err(error)),
            ProgressView::Ended(Ok(status)) => ProgressView::Ended(Ok(exit_code(status))),
        },
    }
}

/// Says where the program stands, given the answers of the host to the questions
/// that the launch raised (`host`), its answers to those that the run raised
/// (`checks`), and the reports on the acts of the run.
pub fn execute(
    cli: &Cli,
    env: &HostEnv,
    host: &HostFacts,
    checks: &HostFacts,
    reports: &[Report],
) -> (r: Progress<u8>)
    ensures
        r@ == execution(host@, env@, *cli, checks@, views(reports@)),
{
    let spec = match cli.launch_spec(env, host) {
        Err(StopOf::Ask(question)) => {
            return Progress::Ask(question);
        },
        Err(StopOf::Fail(error)) => {
            return Progress::Ended(Err(error));
        },
        Ok(spec) => spec,
    };
    match run_omp(&spec, cli.omp_args.as_slice(), checks, reports) {
        Progress::Ask(question) => Progress::Ask(question),
        Progress::Check(question) => Progress::Check(question),
        Progress::Act(act) => Progress::Act(act),
        Progress::Ended(Err(error)) => Progress::Ended(Err(error)),
        Progress::Ended(Ok(status)) => Progress::Ended(Ok(code_of(status))),
    }
}

/// A launch that a command line asks for keeps its state where a run looks for
/// it, so that no run ends over the place of its state.
pub proof fn law_launches_can_be_run(
    facts: FactsView,
    vars: Seq<(Seq<u8>, Seq<u8>)>,
    cli: Cli,
    spec: LaunchView,
)
    requires
        launch(
            facts,
            vars,
            cli.project@,
            views(cli.allow_read@),
            views(cli.pass_env@),
        ) == Ok::<LaunchView, StopView>(spec),
    ensures
        spec.state_dir == state_dir_of(spec.project),
        first_state(spec) == StateView::Looking(Place::Hidden),
{
}

/// A command's own exit code is the program's wherever it fits, and a signal
/// becomes a code of its own.
pub proof fn law_exit_codes(status: Status)
    ensures
        status.code matches Some(code) && 0 <= code <= 255 ==> exit_code(status) == status.code->0,
        status.code matches Some(code) && !(0 <= code <= 255) ==> exit_code(status) == 1,
        status.code is None && (status.signal matches Some(signal) && -128 <= signal <= 127)
            ==> exit_code(status) == 128 + status.signal->0,
        status.code is None && (status.signal matches Some(signal) && !(-128 <= signal <= 127))
            ==> exit_code(status) == 1,
        status.code is None && status.signal is None ==> exit_code(status) == 129,
{
}

/// The program works out its launch, runs it on its own arguments and returns what the
/// command's status comes to. It asks before it acts; and where the launch or the run
/// fails, so does it, with the same failure.
pub proof fn law_program_follows_its_run(
    facts: FactsView,
    vars: Seq<(Seq<u8>, Seq<u8>)>,
    cli: Cli,
    checks: FactsView,
    reports: Seq<ReportView>,
)
    ensures
        ({
            let launched = launch(
                facts,
                vars,
                cli.project@,
                views(cli.allow_read@),
                views(cli.pass_env@),
            );
            let now = execution(facts, vars, cli, checks, reports);
            &&& launched matches Err(StopOf::Ask(question)) ==> now == ProgressView::<u8>::Ask(
                question,
            )
            &&& launched matches Err(StopOf::Fail(error)) ==> now == ProgressView::<u8>::Ended(
                Err(error),
            )
            &&& launched matches Ok(spec) ==> match run(
                checks,
                spec,
                views(cli.omp_args@),
                reports,
            ) {
                ProgressView::Act(act) => now == ProgressView::<u8>::Act(act),
                ProgressView::Check(question) => now == ProgressView::<u8>::Check(question),
                ProgressView::Ask(_) => false,
                ProgressView::Ended(Err(error)) => now == ProgressView::<u8>::Ended(Err(error)),
                ProgressView::Ended(Ok(status)) => now == ProgressView::<u8>::Ended(
                    Ok(exit_code(status)),
                ),
            }
        }),
{
}

} // verus!
