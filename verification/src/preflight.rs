//! What has to hold of a host before anything is launched on it.
use vstd::prelude::*;
use vstd::string::*;

use crate::bytes::bytes_of;
use crate::error::{failure, in_context, path, text, Error, Message};
use crate::host::{
    fail, host_error, host_failure, is_dir, is_present, outcome, stat_of, text_at, FactsView,
    HostFacts, ReplyOf, StatOf, Stop, StopOf, StopView,
};
use crate::path::{join, HostPath};
use crate::text::{number, parse_number, trim, trimmed, NumberFault};
use crate::types::{LaunchSpec, LaunchView};

verus! {

/// The bit that lets a program run as its owner.
pub const SETUID: u32 = 0x800;

pub open spec fn fault_text(fault: NumberFault) -> Seq<char> {
    match fault {
        NumberFault::Empty => "cannot parse integer from empty string"@,
        NumberFault::InvalidDigit => "invalid digit found in string"@,
        NumberFault::TooLarge => "number too large to fit in target type"@,
    }
}

fn number_error(fault: NumberFault) -> (r: Error)
    ensures
        r@ == failure(seq![text(fault_text(fault))]),
{
    match fault {
        NumberFault::Empty => Error::new(Message::new("cannot parse integer from empty string")),
        NumberFault::InvalidDigit => Error::new(Message::new("invalid digit found in string")),
        NumberFault::TooLarge => Error::new(
            Message::new("number too large to fit in target type"),
        ),
    }
}

/// A user may make namespaces.
pub open spec fn namespaces_allowed(facts: FactsView) -> Result<(), StopView> {
    match text_at(facts, bytes_of("/proc/sys/user/max_user_namespaces"@)) {
        Err(stop) => Err(stop),
        Ok(ReplyOf::Failed(why)) => fail(
            in_context(
                seq![text("cannot read /proc/sys/user/max_user_namespaces"@)],
                host_failure(why),
            ),
        ),
        Ok(ReplyOf::Got(held)) => match number(trim(held)) {
            Err(fault) => fail(
                in_context(
                    seq![text("invalid /proc/sys/user/max_user_namespaces"@)],
                    failure(seq![text(fault_text(fault))]),
                ),
            ),
            Ok(count) => if count == 0 {
                fail(
                    failure(
                        seq![
                            text(
                                "unprivileged user namespaces are disabled (max_user_namespaces=0)"@,
                            ),
                        ],
                    ),
                )
            } else {
                Ok(())
            },
        },
    }
}

/// No program can type into the terminal on the user's behalf.
pub open spec fn terminal_safe(facts: FactsView) -> Result<(), StopView> {
    let tiocsti = bytes_of("/proc/sys/dev/tty/legacy_tiocsti"@);
    match is_present(facts, tiocsti) {
        Err(stop) => Err(stop),
        Ok(false) => Ok(()),
        Ok(true) => match text_at(facts, tiocsti) {
            Err(stop) => Err(stop),
            Ok(ReplyOf::Failed(why)) => fail(
                in_context(
                    seq![text("cannot read /proc/sys/dev/tty/legacy_tiocsti"@)],
                    host_failure(why),
                ),
            ),
            Ok(ReplyOf::Got(held)) => if trim(held) != "0"@ {
                fail(
                    failure(
                        seq![
                            text(
                                "legacy TIOCSTI is enabled; refusing to retain the controlling terminal"@,
                            ),
                        ],
                    ),
                )
            } else {
                Ok(())
            },
        },
    }
}

pub open spec fn mode_of(stat: StatOf<Seq<char>>) -> u32 {
    match stat {
        StatOf::Absent(_) => 0,
        StatOf::File(mode) => mode,
        StatOf::Directory(mode) => mode,
        StatOf::Other(mode) => mode,
    }
}

/// Bubblewrap runs as the user.
pub open spec fn bwrap_usable(facts: FactsView, bwrap: Seq<u8>) -> Result<(), StopView> {
    match stat_of(facts, bwrap) {
        Err(stop) => Err(stop),
        Ok(StatOf::Absent(why)) => fail(
            in_context(
                seq![text("cannot inspect Bubblewrap "@)].push(path(bwrap)),
                host_failure(why),
            ),
        ),
        Ok(stat) => if mode_of(stat) & SETUID != 0 {
            fail(
                failure(
                    seq![
                        text(
                            "setuid Bubblewrap does not support the required --overlay isolation"@,
                        ),
                    ],
                ),
            )
        } else {
            Ok(())
        },
    }
}

/// There are files to lay the project's own over.
pub open spec fn lower_present(facts: FactsView, home: Seq<u8>) -> Result<(), StopView> {
    let lower = join(home, bytes_of(".omp"@));
    match is_dir(facts, lower) {
        Err(stop) => Err(stop),
        Ok(true) => Ok(()),
        Ok(false) => fail(
            failure(
                seq![text("host OMP state lower layer "@)].push(path(lower)).push(
                    text(" is missing"@),
                ),
            ),
        ),
    }
}

/// The host is fit for a launch.
pub open spec fn fit(facts: FactsView, spec: LaunchView) -> Result<(), StopView> {
    match namespaces_allowed(facts) {
        Err(stop) => Err(stop),
        Ok(_) => match terminal_safe(facts) {
            Err(stop) => Err(stop),
            Ok(_) => match bwrap_usable(facts, spec.bwrap) {
                Err(stop) => Err(stop),
                Ok(_) => lower_present(facts, spec.home),
            },
        },
    }
}

fn check_namespaces(host: &HostFacts) -> (r: Result<(), Stop>)
    ensures
        outcome(r) == namespaces_allowed(host@),
{
    let file = HostPath::new("/proc/sys/user/max_user_namespaces");
    match host.read_text(&file) {
        Err(stop) => Err(stop),
        Ok(ReplyOf::Failed(why)) => Err(
            StopOf::Fail(
                host_error(why).context(
                    Message::new("cannot read /proc/sys/user/max_user_namespaces"),
                ),
            ),
        ),
        Ok(ReplyOf::Got(held)) => match parse_number(trimmed(held.as_str())) {
            Err(fault) => Err(
                StopOf::Fail(
                    number_error(fault).context(
                        Message::new("invalid /proc/sys/user/max_user_namespaces"),
                    ),
                ),
            ),
            Ok(count) => if count == 0 {
                Err(
                    StopOf::Fail(
                        Error::new(
                            Message::new(
                                "unprivileged user namespaces are disabled (max_user_namespaces=0)",
                            ),
                        ),
                    ),
                )
            } else {
                Ok(())
            },
        },
    }
}

fn is_zero(s: &str) -> (r: bool)
    ensures
        r == (s@ == "0"@),
{
    proof {
        reveal_strlit("0");
    }
    if s.unicode_len() != 1 {
        return false;
    }
    let zero = s.get_char(0) == '0';
    assert(zero ==> s@ =~= "0"@);
    zero
}

fn check_terminal(host: &HostFacts) -> (r: Result<(), Stop>)
    ensures
        outcome(r) == terminal_safe(host@),
{
    let tiocsti = HostPath::new("/proc/sys/dev/tty/legacy_tiocsti");
    match host.is_present(&tiocsti) {
        Err(stop) => Err(stop),
        Ok(false) => Ok(()),
        Ok(true) => match host.read_text(&tiocsti) {
            Err(stop) => Err(stop),
            Ok(ReplyOf::Failed(why)) => Err(
                StopOf::Fail(
                    host_error(why).context(
                        Message::new("cannot read /proc/sys/dev/tty/legacy_tiocsti"),
                    ),
                ),
            ),
            Ok(ReplyOf::Got(held)) => if !is_zero(trimmed(held.as_str())) {
                Err(
                    StopOf::Fail(
                        Error::new(
                            Message::new(
                                "legacy TIOCSTI is enabled; refusing to retain the controlling terminal",
                            ),
                        ),
                    ),
                )
            } else {
                Ok(())
            },
        },
    }
}

fn check_bwrap(bwrap: &HostPath, host: &HostFacts) -> (r: Result<(), Stop>)
    ensures
        outcome(r) == bwrap_usable(host@, bwrap@),
{
    let mode: u32 = match host.stat(bwrap) {
        Err(stop) => {
            return Err(stop);
        },
        Ok(StatOf::Absent(why)) => {
            return Err(
                StopOf::Fail(
                    host_error(why).context(
                        Message::new("cannot inspect Bubblewrap ").path(bwrap),
                    ),
                ),
            );
        },
        Ok(StatOf::File(mode)) => *mode,
        Ok(StatOf::Directory(mode)) => *mode,
        Ok(StatOf::Other(mode)) => *mode,
    };
    if mode & SETUID != 0 {
        return Err(
            StopOf::Fail(
                Error::new(
                    Message::new(
                        "setuid Bubblewrap does not support the required --overlay isolation",
                    ),
                ),
            ),
        );
    }
    Ok(())
}

fn check_lower(home: &HostPath, host: &HostFacts) -> (r: Result<(), Stop>)
    ensures
        outcome(r) == lower_present(host@, home@),
{
    let lower = home.join_text(".omp");
    match host.is_dir(&lower) {
        Err(stop) => Err(stop),
        Ok(true) => Ok(()),
        Ok(false) => Err(
            StopOf::Fail(
                Error::new(
                    Message::new("host OMP state lower layer ").path(&lower).text(" is missing"),
                ),
            ),
        ),
    }
}

/// Checks that the host is fit for a launch.
pub fn preflight(spec: &LaunchSpec, host: &HostFacts) -> (r: Result<(), Stop>)
    ensures
        outcome(r) == fit(host@, spec@),
{
    match check_namespaces(host) {
        Err(stop) => {
            return Err(stop);
        },
        Ok(_) => {},
    }
    match check_terminal(host) {
        Err(stop) => {
            return Err(stop);
        },
        Ok(_) => {},
    }
    match check_bwrap(&spec.bwrap, host) {
        Err(stop) => {
            return Err(stop);
        },
        Ok(_) => {},
    }
    check_lower(&spec.home, host)
}

/// A host is fit for a launch exactly if its users may make namespaces, no program
/// can type into the terminal, Bubblewrap is there and runs as the user, and there
/// are files to lay the project's own over.
pub proof fn law_fitness(facts: FactsView, spec: LaunchView)
    ensures
        fit(facts, spec) is Ok <==> ({
            let tiocsti = bytes_of("/proc/sys/dev/tty/legacy_tiocsti"@);
            &&& text_at(facts, bytes_of("/proc/sys/user/max_user_namespaces"@)) matches Ok(
                ReplyOf::Got(held),
            ) && number(trim(held)) matches Ok(count) && count > 0
            &&& is_present(facts, tiocsti) == Ok::<bool, StopView>(false) || (is_present(
                facts,
                tiocsti,
            ) == Ok::<bool, StopView>(true) && (text_at(facts, tiocsti) matches Ok(
                ReplyOf::Got(held),
            ) && trim(held) == "0"@))
            &&& stat_of(facts, spec.bwrap) matches Ok(stat) && match stat {
                StatOf::Absent(_) => false,
                StatOf::File(mode) => mode & 0o4000 == 0,
                StatOf::Directory(mode) => mode & 0o4000 == 0,
                StatOf::Other(mode) => mode & 0o4000 == 0,
            }
            &&& is_dir(facts, join(spec.home, bytes_of(".omp"@))) == Ok::<bool, StopView>(true)
        }),
{
}

} // verus!
