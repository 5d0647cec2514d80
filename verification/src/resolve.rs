//! Which file a command names.
use vstd::prelude::*;
use vstd::string::*;

use crate::bytes::{bytes_of, split, split_bytes};
use crate::error::{failure, in_context, path, text, word, Error, Message};
use crate::host::{
    current_dir, fail, host_error, host_failure, outcome, stat_of, FactsView, HostFacts, ReplyOf,
    StatOf, Stop, StopOf, StopView,
};
use crate::path::{components, is_absolute, join, HostPath};
use crate::views::views;

verus! {

broadcast use crate::views::group_views;

pub const COLON: u8 = 0x3a;

/// Some execute permission is set.
pub open spec fn can_execute(mode: u32) -> bool {
    mode & 0o111 != 0
}

/// The path leads to a file that may be executed.
pub open spec fn executable_at(facts: FactsView, p: Seq<u8>) -> Result<(), StopView> {
    match stat_of(facts, p) {
        Err(stop) => Err(stop),
        Ok(StatOf::Absent(why)) => fail(
            in_context(
                seq![text("executable "@)].push(path(p)).push(text(" does not exist"@)),
                host_failure(why),
            ),
        ),
        Ok(StatOf::File(mode)) => if can_execute(mode) {
            Ok(())
        } else {
            fail(failure(seq![path(p)].push(text(" is not an executable file"@))))
        },
        Ok(_) => fail(failure(seq![path(p)].push(text(" is not an executable file"@)))),
    }
}

/// A path as it stands if absolute, else from the current directory.
pub open spec fn absolute_form(facts: FactsView, p: Seq<u8>) -> Result<Seq<u8>, StopView> {
    if is_absolute(p) {
        Ok(p)
    } else {
        match current_dir(facts) {
            Err(stop) => Err(stop),
            Ok(ReplyOf::Failed(why)) => fail(host_failure(why)),
            Ok(ReplyOf::Got(dir)) => Ok(join(dir, p)),
        }
    }
}

/// The first of the directories, from the `i`-th on, that holds the command.
pub open spec fn searched(
    facts: FactsView,
    command: Seq<u8>,
    dirs: Seq<Seq<u8>>,
    i: nat,
) -> Result<Seq<u8>, StopView>
    decreases dirs.len() - i,
{
    if i >= dirs.len() {
        fail(
            failure(
                seq![text("executable "@)].push(word(command)).push(
                    text(" was not found on PATH"@),
                ),
            ),
        )
    } else {
        let candidate = join(dirs[i as int], command);
        match executable_at(facts, candidate) {
            Ok(_) => absolute_form(facts, candidate),
            Err(StopOf::Ask(question)) => Err(StopOf::Ask(question)),
            Err(StopOf::Fail(_)) => searched(facts, command, dirs, i + 1),
        }
    }
}

/// Whether a command says where it is, so that the search path is not used.
pub open spec fn names_a_place(command: Seq<u8>) -> bool {
    components(command).len() > 1 || is_absolute(command)
}

/// The file that a command names: a command of more than one component, or an
/// absolute one, from `cwd`; any other by the search path.
pub open spec fn resolved(
    facts: FactsView,
    command: Seq<u8>,
    host_path: Seq<u8>,
    cwd: Option<Seq<u8>>,
) -> Result<Seq<u8>, StopView> {
    if names_a_place(command) {
        let base = match cwd {
            Some(dir) => dir,
            None => bytes_of("."@),
        };
        let place = join(base, command);
        match executable_at(facts, place) {
            Err(stop) => Err(stop),
            Ok(_) => absolute_form(facts, place),
        }
    } else {
        searched(facts, command, split(host_path, seq![COLON]), 0)
    }
}

pub fn ensure_executable(p: &HostPath, host: &HostFacts) -> (r: Result<(), Stop>)
    ensures
        outcome(r) == executable_at(host@, p@),
{
    match host.stat(p) {
        Err(stop) => Err(stop),
        Ok(StatOf::Absent(why)) => Err(
            StopOf::Fail(
                host_error(why).context(Message::new("executable ").path(p).text(" does not exist")),
            ),
        ),
        Ok(StatOf::File(mode)) => {
            if *mode & 0o111 != 0 {
                Ok(())
            } else {
                Err(StopOf::Fail(Error::new(Message::about(p).text(" is not an executable file"))))
            }
        },
        Ok(_) => Err(
            StopOf::Fail(Error::new(Message::about(p).text(" is not an executable file"))),
        ),
    }
}

pub fn absolutize_lexical(p: &HostPath, host: &HostFacts) -> (r: Result<HostPath, Stop>)
    ensures
        outcome(r) == absolute_form(host@, p@),
{
    if p.is_absolute() {
        return Ok(p.copy());
    }
    match host.current_dir() {
        Err(stop) => Err(stop),
        Ok(ReplyOf::Failed(why)) => Err(StopOf::Fail(host_error(why))),
        Ok(ReplyOf::Got(dir)) => Ok(dir.join(p)),
    }
}

/// Finds the file that `command` names, as a shell in `cwd` with the search
/// path `host_path` would.
pub fn resolve_executable(
    command: &[u8],
    host_path: &[u8],
    cwd: Option<&HostPath>,
    host: &HostFacts,
) -> (r: Result<HostPath, Stop>)
    ensures
        outcome(r) == resolved(
            host@,
            command@,
            host_path@,
            match cwd {
                Some(dir) => Some(dir@),
                None => None,
            },
        ),
{
    let wanted = HostPath::from_bytes(command);
    let parts = wanted.components();
    assert(views(parts@).len() == parts.len());
    if parts.len() > 1 || wanted.is_absolute() {
        let place = match cwd {
            Some(dir) => dir.join(&wanted),
            None => HostPath::new(".").join(&wanted),
        };
        return match ensure_executable(&place, host) {
            Err(stop) => Err(stop),
            Ok(_) => absolutize_lexical(&place, host),
        };
    }
    let dirs = split_bytes(host_path, &[COLON]);
    assert([COLON]@ =~= seq![COLON]);
    let mut i: usize = 0;
    while i < dirs.len()
        invariant
            i <= dirs.len(),
            wanted@ == command@,
            !names_a_place(command@),
            views(dirs@) == split(host_path@, seq![COLON]),
            searched(host@, command@, views(dirs@), 0) == searched(
                host@,
                command@,
                views(dirs@),
                i as nat,
            ),
        decreases dirs.len() - i,
    {
        let candidate = HostPath::from_bytes(dirs[i].as_slice()).join(&wanted);
        match ensure_executable(&candidate, host) {
            Ok(_) => {
                return absolutize_lexical(&candidate, host);
            },
            Err(StopOf::Ask(question)) => {
                return Err(StopOf::Ask(question));
            },
            Err(StopOf::Fail(_)) => {},
        }
        i += 1;
    }
    Err(
        StopOf::Fail(
            Error::new(
                Message::new("executable ").word(command).text(
                    " was not found on PATH",
                ),
            ),
        ),
    )
}

proof fn lemma_searched(
    facts: FactsView,
    command: Seq<u8>,
    dirs: Seq<Seq<u8>>,
    i: nat,
    found: Seq<u8>,
) -> (k: int)
    requires
        searched(facts, command, dirs, i) == Ok::<Seq<u8>, StopView>(found),
    ensures
        i <= k < dirs.len(),
        executable_at(facts, join(dirs[k], command)) is Ok,
        absolute_form(facts, join(dirs[k], command)) == Ok::<Seq<u8>, StopView>(found),
        forall|j: int|
            i <= j < k ==> executable_at(facts, join(#[trigger] dirs[j], command)) matches Err(
                StopOf::Fail(_),
            ),
    decreases dirs.len() - i,
{
    if executable_at(facts, join(dirs[i as int], command)) is Ok {
        i as int
    } else {
        lemma_searched(facts, command, dirs, i + 1, found)
    }
}

/// A command without a place is found in the first directory of the search path
/// that has a file of its name that may be executed.
pub proof fn law_first_directory_wins(
    facts: FactsView,
    command: Seq<u8>,
    host_path: Seq<u8>,
    cwd: Option<Seq<u8>>,
    found: Seq<u8>,
)
    requires
        !names_a_place(command),
        resolved(facts, command, host_path, cwd) == Ok::<Seq<u8>, StopView>(found),
    ensures
        exists|k: int|
            #![trigger split(host_path, seq![COLON])[k]]
            0 <= k < split(host_path, seq![COLON]).len() && executable_at(
                facts,
                join(split(host_path, seq![COLON])[k], command),
            ) is Ok && absolute_form(facts, join(split(host_path, seq![COLON])[k], command)) == Ok::<
                Seq<u8>,
                StopView,
            >(found) && forall|j: int|
                0 <= j < k ==> executable_at(
                    facts,
                    join(#[trigger] split(host_path, seq![COLON])[j], command),
                ) matches Err(StopOf::Fail(_)),
{
    let dirs = split(host_path, seq![COLON]);
    let k = lemma_searched(facts, command, dirs, 0, found);
    assert(executable_at(facts, join(dirs[k], command)) is Ok);
}

/// The path leads to a file with some execute permission.
pub open spec fn is_program(facts: FactsView, p: Seq<u8>) -> bool {
    stat_of(facts, p) matches Ok(StatOf::File(mode)) && mode & 0o111 != 0
}

/// `found` is the path as it stands if absolute, else from the current directory.
pub open spec fn is_absolute_form(facts: FactsView, p: Seq<u8>, found: Seq<u8>) -> bool {
    if is_absolute(p) {
        found == p
    } else {
        current_dir(facts) matches Ok(ReplyOf::Got(dir)) && found == join(dir, p)
    }
}

/// A file can be executed if it is one and some execute permission is set, and a
/// failure comes of nothing else.
pub proof fn law_executables(facts: FactsView, p: Seq<u8>)
    ensures
        executable_at(facts, p) is Ok <==> is_program(facts, p),
        executable_at(facts, p) matches Err(StopOf::Fail(_)) ==> stat_of(facts, p) is Ok
            && !is_program(facts, p),
{
}

/// The `k`-th of the directories is the first that has the command.
pub open spec fn is_first_place(
    facts: FactsView,
    command: Seq<u8>,
    dirs: Seq<Seq<u8>>,
    k: int,
) -> bool {
    &&& 0 <= k < dirs.len()
    &&& is_program(facts, join(dirs[k], command))
    &&& forall|j: int|
        0 <= j < k ==> stat_of(facts, join(#[trigger] dirs[j], command)) is Ok && !is_program(
            facts,
            join(dirs[j], command),
        )
}

proof fn lemma_searched_nowhere(facts: FactsView, command: Seq<u8>, dirs: Seq<Seq<u8>>, i: nat)
    requires
        searched(facts, command, dirs, i) matches Err(StopOf::Fail(_)),
    ensures
        (forall|j: int|
            i <= j < dirs.len() ==> stat_of(facts, join(#[trigger] dirs[j], command)) is Ok
                && !is_program(facts, join(dirs[j], command))) || (exists|k: int|
            i <= k < dirs.len() && is_program(facts, join(#[trigger] dirs[k], command))
                && !is_absolute(join(dirs[k], command)) && current_dir(facts) matches Ok(
                ReplyOf::Failed(_),
            )),
    decreases dirs.len() - i,
{
    if i < dirs.len() {
        let candidate = join(dirs[i as int], command);
        law_executables(facts, candidate);
        if executable_at(facts, candidate) is Err {
            lemma_searched_nowhere(facts, command, dirs, i + 1);
        } else {
            assert(is_program(facts, join(dirs[i as int], command)));
        }
    }
}

/// A command that says where it is, is looked for there and nowhere else, from the
/// working directory of its server or from the current one; any other is the first
/// program of its name in the directories of the search path.
pub proof fn law_commands_are_found(
    facts: FactsView,
    command: Seq<u8>,
    host_path: Seq<u8>,
    cwd: Option<Seq<u8>>,
    found: Seq<u8>,
)
    requires
        resolved(facts, command, host_path, cwd) == Ok::<Seq<u8>, StopView>(found),
    ensures
        components(command).len() > 1 || is_absolute(command) ==> {
            let place = join(
                if cwd is Some {
                    cwd->0
                } else {
                    bytes_of("."@)
                },
                command,
            );
            is_program(facts, place) && is_absolute_form(facts, place, found)
        },
        !(components(command).len() > 1 || is_absolute(command)) ==> exists|k: int|
            #[trigger] is_first_place(facts, command, split(host_path, seq![0x3a]), k)
                && is_absolute_form(
                facts,
                join(split(host_path, seq![0x3a])[k], command),
                found,
            ),
{
    if !names_a_place(command) {
        let dirs = split(host_path, seq![COLON]);
        let k = lemma_searched(facts, command, dirs, 0, found);
        assert forall|j: int| 0 <= j < k implies stat_of(
            facts,
            join(#[trigger] dirs[j], command),
        ) is Ok && !is_program(facts, join(dirs[j], command)) by {
            assert(executable_at(facts, join(dirs[j], command)) matches Err(StopOf::Fail(_)));
            law_executables(facts, join(dirs[j], command));
        }
        assert(is_first_place(facts, command, dirs, k));
    }
}

/// A command is not found only where its place has no program, or where no directory
/// of the search path has one; or where the current directory cannot be told.
pub proof fn law_commands_are_owed(
    facts: FactsView,
    command: Seq<u8>,
    host_path: Seq<u8>,
    cwd: Option<Seq<u8>>,
)
    requires
        resolved(facts, command, host_path, cwd) matches Err(StopOf::Fail(_)),
    ensures
        ({
            let place = join(
                if cwd is Some {
                    cwd->0
                } else {
                    bytes_of("."@)
                },
                command,
            );
            let dirs = split(host_path, seq![0x3a]);
            ||| (components(command).len() > 1 || is_absolute(command)) && stat_of(
                facts,
                place,
            ) is Ok && !is_program(facts, place)
            ||| (components(command).len() > 1 || is_absolute(command)) && !is_absolute(place)
                && current_dir(facts) matches Ok(ReplyOf::Failed(_))
            ||| components(command).len() <= 1 && !is_absolute(command) && forall|j: int|
                0 <= j < dirs.len() ==> stat_of(facts, join(#[trigger] dirs[j], command)) is Ok
                    && !is_program(facts, join(dirs[j], command))
            ||| components(command).len() <= 1 && !is_absolute(command) && exists|k: int|
                0 <= k < dirs.len() && is_program(facts, join(#[trigger] dirs[k], command))
                    && !is_absolute(join(dirs[k], command)) && current_dir(facts) matches Ok(
                    ReplyOf::Failed(_),
                )
        }),
{
    if !names_a_place(command) {
        lemma_searched_nowhere(facts, command, split(host_path, seq![COLON]), 0);
    }
}

} // verus!
