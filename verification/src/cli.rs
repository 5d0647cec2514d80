//! From a command line and an environment to a launch.
use vstd::prelude::*;
use vstd::string::*;
use vstd::utf8::{is_ascii_chars, is_ascii_chars_encode_utf8};

use crate::bytes::{
    bytes_contain, bytes_of, bytes_start_with, copy_bytes, lemma_bytes_tell, lemma_split_on,
    lemma_split_one, split, text_bytes,
};
use crate::env::{variable, Environment, HostEnv};
use crate::error::{failure, in_context, path, text, word, Error, ErrorView, Message};
use crate::host::{
    canonical_of, fail, host_error, host_failure, is_dir, list_outcome, outcome, owner_of,
    stop_context, FactsView, HostFacts, ReplyOf, Stop, StopOf, StopView,
};
use crate::mcp::{discover_mcp_mounts_with_policy, discovery, resolve_runtime, runtime};
use crate::path::{components, copy_paths, is_absolute, is_under, join, HostPath};
use crate::resolve::{resolve_executable, resolved, COLON};
use crate::roots::{
    dedupe_paths, dedupe_roots, distinct, law_distinct_paths, law_roots_cover, none_nested, roots,
    strictly_ordered,
};
use crate::text::{decimal, decimal_bytes};
use crate::types::{
    Discovery, DiscoveryView, LaunchSpec, LaunchView, McpDiscoveryPolicy, Runtime, RuntimeView,
};
use crate::views::views;

verus! {

broadcast use crate::views::group_views;

/// What the command line asks for.
#[derive(Clone, Debug, PartialEq, Eq)]
pub struct Cli {
    pub project: HostPath,
    pub allow_read: Vec<HostPath>,
    pub pass_env: Vec<Vec<u8>>,
    pub strict_mcp: bool,
    pub omp_args: Vec<Vec<u8>>,
}

pub const UNDERSCORE: u8 = 0x5f;

pub open spec fn is_letter(b: u8) -> bool {
    0x41 <= b <= 0x5a || 0x61 <= b <= 0x7a
}

pub open spec fn is_digit(b: u8) -> bool {
    0x30 <= b <= 0x39
}

/// A letter or underscore, and after it letters, digits and underscores.
pub open spec fn is_env_name(name: Seq<u8>) -> bool {
    &&& name.len() > 0
    &&& is_letter(name[0]) || name[0] == UNDERSCORE
    &&& forall|i: int|
        1 <= i < name.len() ==> is_letter(#[trigger] name[i]) || is_digit(name[i]) || name[i]
            == UNDERSCORE
}

fn is_letter_byte(b: u8) -> (r: bool)
    ensures
        r == is_letter(b),
{
    (0x41 <= b && b <= 0x5a) || (0x61 <= b && b <= 0x7a)
}

/// Whether a shell would take `name` for the name of a variable.
pub fn valid_env_name(name: &[u8]) -> (r: bool)
    ensures
        r == is_env_name(name@),
{
    if name.len() == 0 {
        return false;
    }
    if !(is_letter_byte(name[0]) || name[0] == UNDERSCORE) {
        return false;
    }
    let mut i: usize = 1;
    while i < name.len()
        invariant
            1 <= i <= name.len(),
            forall|j: int|
                1 <= j < i ==> is_letter(#[trigger] name@[j]) || is_digit(name@[j]) || name@[j]
                    == UNDERSCORE,
        decreases name.len() - i,
    {
        let b = name[i];
        if !(is_letter_byte(b) || (0x30 <= b && b <= 0x39) || b == UNDERSCORE) {
            assert(!(is_letter(name@[i as int]) || is_digit(name@[i as int]) || name@[i as int]
                == UNDERSCORE));
            return false;
        }
        i += 1;
    }
    true
}

/// The value of a variable, or `default` where it is not set.
pub open spec fn variable_or(
    vars: Seq<(Seq<u8>, Seq<u8>)>,
    name: Seq<char>,
    default: Seq<u8>,
) -> Seq<u8> {
    match variable(vars, bytes_of(name)) {
        Some(value) => value,
        None => default,
    }
}

fn read_or(env: &HostEnv, name: &str, default: Vec<u8>) -> (r: Vec<u8>)
    ensures
        r@ == variable_or(env@, name@, default@),
{
    let key = text_bytes(name);
    match env.get(key.as_slice()) {
        Some(value) => copy_bytes(value.as_slice()),
        None => default,
    }
}

pub open spec fn runtime_dir(uid: u32) -> Seq<u8> {
    bytes_of("/run/user/"@) + decimal(uid as nat)
}

/// The directory for a user's run-time files.
pub fn runtime_dir_bytes(uid: u32) -> (r: Vec<u8>)
    ensures
        r@ == runtime_dir(uid),
{
    let mut bytes = text_bytes("/run/user/");
    let mut digits = decimal_bytes(uid);
    bytes.append(&mut digits);
    bytes
}

/// The variables that every sandbox has.
pub open spec fn basic_environment(
    vars: Seq<(Seq<u8>, Seq<u8>)>,
    home: Seq<u8>,
    project: Seq<u8>,
    uid: u32,
) -> Map<Seq<u8>, Seq<u8>> {
    let user = variable_or(vars, "USER"@, bytes_of("user"@));
    Map::<Seq<u8>, Seq<u8>>::empty().insert(bytes_of("HOME"@), home).insert(
        bytes_of("USER"@),
        user,
    ).insert(bytes_of("LOGNAME"@), variable_or(vars, "LOGNAME"@, user)).insert(
        bytes_of("SHELL"@),
        variable_or(vars, "SHELL"@, bytes_of("/bin/sh"@)),
    ).insert(bytes_of("PWD"@), project).insert(
        bytes_of("TERM"@),
        variable_or(vars, "TERM"@, bytes_of("xterm-256color"@)),
    ).insert(
        bytes_of("COLORTERM"@),
        variable_or(vars, "COLORTERM"@, bytes_of("truecolor"@)),
    ).insert(bytes_of("LANG"@), variable_or(vars, "LANG"@, bytes_of("C.UTF-8"@))).insert(
        bytes_of("XDG_RUNTIME_DIR"@),
        runtime_dir(uid),
    ).insert(bytes_of("PI_CONFIG_DIR"@), bytes_of(".omp"@))
}

fn copy_or_default(result: &mut Environment, env: &HostEnv, name: &str, default: &str)
    ensures
        final(result)@ == old(result)@.insert(
            bytes_of(name@),
            variable_or(env@, name@, bytes_of(default@)),
        ),
{
    result.insert(text_bytes(name), read_or(env, name, text_bytes(default)));
}

fn build_basics(env: &HostEnv, home: &HostPath, project: &HostPath, uid: u32) -> (r: Environment)
    ensures
        r@ == basic_environment(env@, home@, project@, uid),
{
    let mut result = Environment::new();
    result.insert(text_bytes("HOME"), copy_bytes(home.bytes.as_slice()));
    copy_or_default(&mut result, env, "USER", "user");
    let user = read_or(env, "USER", text_bytes("user"));
    result.insert(text_bytes("LOGNAME"), read_or(env, "LOGNAME", user));
    copy_or_default(&mut result, env, "SHELL", "/bin/sh");
    result.insert(text_bytes("PWD"), copy_bytes(project.bytes.as_slice()));
    copy_or_default(&mut result, env, "TERM", "xterm-256color");
    copy_or_default(&mut result, env, "COLORTERM", "truecolor");
    copy_or_default(&mut result, env, "LANG", "C.UTF-8");
    result.insert(text_bytes("XDG_RUNTIME_DIR"), runtime_dir_bytes(uid));
    result.insert(text_bytes("PI_CONFIG_DIR"), text_bytes(".omp"));
    result
}

/// Directories with colons between them.
pub open spec fn with_colons(dirs: Seq<Seq<u8>>) -> Seq<u8>
    decreases dirs.len(),
{
    if dirs.len() == 0 {
        Seq::empty()
    } else if dirs.len() == 1 {
        dirs[0]
    } else {
        with_colons(dirs.drop_last()).push(COLON) + dirs.last()
    }
}

/// The directories of the sandbox's search path.
pub open spec fn search_dirs(path_dirs: Seq<Seq<u8>>) -> Seq<Seq<u8>> {
    distinct(path_dirs.push(bytes_of("/usr/bin"@)).push(bytes_of("/bin"@)))
}

/// Some directory has a colon in its name, so that no search path can hold it.
pub open spec fn has_colon(dirs: Seq<Seq<u8>>) -> bool {
    exists|i: int| 0 <= i < dirs.len() && (#[trigger] dirs[i]).contains(COLON)
}

/// The search path of the sandbox.
pub open spec fn search_path(path_dirs: Seq<Seq<u8>>) -> Result<Seq<u8>, ErrorView> {
    let dirs = search_dirs(path_dirs);
    if has_colon(dirs) {
        Err(
            in_context(
                seq![text("sandbox PATH contains an invalid directory"@)],
                failure(seq![text("path segment contains separator `:`"@)]),
            ),
        )
    } else {
        Ok(with_colons(dirs))
    }
}

fn build_search_path(path_dirs: &Vec<HostPath>) -> (r: Result<Vec<u8>, Error>)
    ensures
        match r {
            Ok(joined) => search_path(views(path_dirs@)) == Ok::<Seq<u8>, ErrorView>(joined@),
            Err(error) => search_path(views(path_dirs@)) == Err::<Seq<u8>, ErrorView>(error@),
        },
{
    let mut wanted = copy_paths(path_dirs);
    wanted.push(HostPath::new("/usr/bin"));
    wanted.push(HostPath::new("/bin"));
    let dirs = dedupe_paths(wanted);
    let ghost all = views(dirs@);
    assert(all == search_dirs(views(path_dirs@)));
    let mut joined: Vec<u8> = Vec::new();
    let mut i: usize = 0;
    assert(all.take(0) =~= Seq::empty());
    while i < dirs.len()
        invariant
            i <= dirs.len(),
            all == views(dirs@),
            all == search_dirs(views(path_dirs@)),
            joined@ == with_colons(all.take(i as int)),
            forall|j: int| 0 <= j < i ==> !(#[trigger] all[j]).contains(COLON),
        decreases dirs.len() - i,
    {
        assert(all[i as int] == dirs@[i as int]@);
        if bytes_contain(dirs[i].bytes.as_slice(), COLON) {
            assert(has_colon(all));
            return Err(
                Error::new(Message::new("path segment contains separator `:`")).context(
                    Message::new("sandbox PATH contains an invalid directory"),
                ),
            );
        }
        assert(all.take(i + 1).drop_last() =~= all.take(i as int));
        assert(all.take(i + 1).last() == dirs@[i as int]@);
        if i > 0 {
            joined.push(COLON);
        }
        let mut next = copy_bytes(dirs[i].bytes.as_slice());
        joined.append(&mut next);
        assert(joined@ =~= with_colons(all.take(i + 1)));
        i += 1;
    }
    assert(all.take(all.len() as int) =~= all);
    Ok(joined)
}

pub open spec fn is_locale_name(name: Seq<u8>) -> bool {
    bytes_of("LC_"@).is_prefix_of(name)
}

/// An environment with the locale variables from the `i`-th variable on.
pub open spec fn with_locale(
    map: Map<Seq<u8>, Seq<u8>>,
    vars: Seq<(Seq<u8>, Seq<u8>)>,
    i: nat,
) -> Map<Seq<u8>, Seq<u8>>
    decreases vars.len() - i,
{
    if i >= vars.len() {
        map
    } else if is_locale_name(vars[i as int].0) {
        with_locale(map.insert(vars[i as int].0, vars[i as int].1), vars, i + 1)
    } else {
        with_locale(map, vars, i + 1)
    }
}

fn add_locale(result: &mut Environment, env: &HostEnv)
    ensures
        final(result)@ == with_locale(old(result)@, env@, 0),
{
    let ghost before = result@;
    let prefix = text_bytes("LC_");
    let mut i: usize = 0;
    while i < env.variables.len()
        invariant
            i <= env.variables.len(),
            prefix@ == bytes_of("LC_"@),
            with_locale(before, env@, 0) == with_locale(result@, env@, i as nat),
        decreases env.variables.len() - i,
    {
        assert(env@[i as int] == env.variables@[i as int]@);
        if bytes_start_with(env.variables[i].0.as_slice(), prefix.as_slice()) {
            result.insert(
                copy_bytes(env.variables[i].0.as_slice()),
                copy_bytes(env.variables[i].1.as_slice()),
            );
        }
        i += 1;
    }
    assert(env@.len() == i);
}

/// The variables that are handed on wherever they are set.
pub open spec fn forwarded_names() -> Seq<Seq<char>> {
    seq![
        "ANTHROPIC_API_KEY"@,
        "ANTHROPIC_OAUTH_TOKEN"@,
        "OPENAI_API_KEY"@,
        "GEMINI_API_KEY"@,
        "COPILOT_GITHUB_TOKEN"@,
        "OMP_AUTH_BROKER_URL"@,
        "OMP_AUTH_BROKER_TOKEN"@,
        "OMP_AUTH_BROKER_SNAPSHOT_TTL_MS"@,
        "OMP_MCP_TIMEOUT_MS"@,
        "PI_SMOL_MODEL"@,
        "PI_SLOW_MODEL"@,
        "PI_PLAN_MODEL"@,
        "CONTEXT7_API_KEY"@,
        "CONTEXT7_API_URL"@,
        "HTTP_PROXY"@,
        "HTTPS_PROXY"@,
        "NO_PROXY"@,
        "http_proxy"@,
        "https_proxy"@,
        "no_proxy"@,
    ]
}

fn list_forwarded() -> (r: Vec<&'static str>)
    ensures
        views(r@) == forwarded_names(),
{
    let names = vec![
        "ANTHROPIC_API_KEY",
        "ANTHROPIC_OAUTH_TOKEN",
        "OPENAI_API_KEY",
        "GEMINI_API_KEY",
        "COPILOT_GITHUB_TOKEN",
        "OMP_AUTH_BROKER_URL",
        "OMP_AUTH_BROKER_TOKEN",
        "OMP_AUTH_BROKER_SNAPSHOT_TTL_MS",
        "OMP_MCP_TIMEOUT_MS",
        "PI_SMOL_MODEL",
        "PI_SLOW_MODEL",
        "PI_PLAN_MODEL",
        "CONTEXT7_API_KEY",
        "CONTEXT7_API_URL",
        "HTTP_PROXY",
        "HTTPS_PROXY",
        "NO_PROXY",
        "http_proxy",
        "https_proxy",
        "no_proxy",
    ];
    assert(views(names@) =~= forwarded_names());
    names
}

/// An environment with those of the named variables, from the `i`-th on, that
/// are set.
pub open spec fn with_forwarded(
    map: Map<Seq<u8>, Seq<u8>>,
    vars: Seq<(Seq<u8>, Seq<u8>)>,
    names: Seq<Seq<char>>,
    i: nat,
) -> Map<Seq<u8>, Seq<u8>>
    decreases names.len() - i,
{
    if i >= names.len() {
        map
    } else {
        match variable(vars, bytes_of(names[i as int])) {
            Some(value) => with_forwarded(
                map.insert(bytes_of(names[i as int]), value),
                vars,
                names,
                i + 1,
            ),
            None => with_forwarded(map, vars, names, i + 1),
        }
    }
}

fn add_forwarded(result: &mut Environment, env: &HostEnv)
    ensures
        final(result)@ == with_forwarded(old(result)@, env@, forwarded_names(), 0),
{
    let ghost before = result@;
    let names = list_forwarded();
    let mut i: usize = 0;
    while i < names.len()
        invariant
            i <= names.len(),
            views(names@) == forwarded_names(),
            with_forwarded(before, env@, forwarded_names(), 0) == with_forwarded(
                result@,
                env@,
                forwarded_names(),
                i as nat,
            ),
        decreases names.len() - i,
    {
        assert(forwarded_names()[i as int] == names@[i as int]@);
        let key = text_bytes(names[i]);
        if let Some(value) = env.get(key.as_slice()) {
            let copy = copy_bytes(value.as_slice());
            result.insert(key, copy);
        }
        i += 1;
    }
    assert(views(names@).len() == i);
}

/// An environment with the requested variables from the `i`-th on, each of which
/// must have a proper name and be set.
pub open spec fn with_passed(
    map: Map<Seq<u8>, Seq<u8>>,
    vars: Seq<(Seq<u8>, Seq<u8>)>,
    names: Seq<Seq<u8>>,
    i: nat,
) -> Result<Map<Seq<u8>, Seq<u8>>, ErrorView>
    decreases names.len() - i,
{
    if i >= names.len() {
        Ok(map)
    } else if !is_env_name(names[i as int]) {
        Err(
            failure(
                seq![text("invalid environment variable name "@)].push(word(names[i as int])),
            ),
        )
    } else {
        match variable(vars, names[i as int]) {
            None => Err(
                failure(
                    seq![text("requested environment variable "@)].push(
                        word(names[i as int]),
                    ).push(text(" is not set"@)),
                ),
            ),
            Some(value) => with_passed(map.insert(names[i as int], value), vars, names, i + 1),
        }
    }
}

fn add_passed(result: &mut Environment, env: &HostEnv, names: &Vec<Vec<u8>>) -> (r: Result<
    (),
    Error,
>)
    ensures
        match with_passed(old(result)@, env@, views(names@), 0) {
            Ok(map) => r is Ok && final(result)@ == map,
            Err(error) => r is Err && r->Err_0@ == error,
        },
{
    let ghost before = result@;
    let ghost wanted = views(names@);
    let mut i: usize = 0;
    while i < names.len()
        invariant
            i <= names.len(),
            wanted == views(names@),
            before == old(result)@,
            with_passed(before, env@, wanted, 0) == with_passed(result@, env@, wanted, i as nat),
        decreases names.len() - i,
    {
        assert(wanted[i as int] == names@[i as int]@);
        let name = names[i].as_slice();
        if !valid_env_name(name) {
            return Err(
                Error::new(Message::new("invalid environment variable name ").word(name)),
            );
        }
        match env.get(name) {
            None => {
                return Err(
                    Error::new(
                        Message::new("requested environment variable ").word(name).text(
                            " is not set",
                        ),
                    ),
                );
            },
            Some(value) => {
                result.insert(copy_bytes(name), copy_bytes(value.as_slice()));
            },
        }
        i += 1;
    }
    assert(wanted.len() == i);
    Ok(())
}

/// The environment of the sandbox: the basic variables and the search path,
/// then the locale, then what is always handed on, then what was asked for.
pub open spec fn environment(
    vars: Seq<(Seq<u8>, Seq<u8>)>,
    home: Seq<u8>,
    project: Seq<u8>,
    uid: u32,
    path_dirs: Seq<Seq<u8>>,
    pass_env: Seq<Seq<u8>>,
) -> Result<Map<Seq<u8>, Seq<u8>>, ErrorView> {
    match search_path(path_dirs) {
        Err(error) => Err(error),
        Ok(joined) => with_passed(
            with_forwarded(
                with_locale(
                    basic_environment(vars, home, project, uid).insert(bytes_of("PATH"@), joined),
                    vars,
                    0,
                ),
                vars,
                forwarded_names(),
                0,
            ),
            vars,
            pass_env,
            0,
        ),
    }
}

/// Builds the environment of the sandbox out of that of the process.
pub fn build_environment(
    home: &HostPath,
    project: &HostPath,
    uid: u32,
    path_dirs: &Vec<HostPath>,
    pass_env: &Vec<Vec<u8>>,
    env: &HostEnv,
) -> (r: Result<Environment, Error>)
    ensures
        match r {
            Ok(result) => environment(
                env@,
                home@,
                project@,
                uid,
                views(path_dirs@),
                views(pass_env@),
            ) == Ok::<Map<Seq<u8>, Seq<u8>>, ErrorView>(result@),
            Err(error) => environment(
                env@,
                home@,
                project@,
                uid,
                views(path_dirs@),
                views(pass_env@),
            ) == Err::<Map<Seq<u8>, Seq<u8>>, ErrorView>(error@),
        },
{
    let mut result = build_basics(env, home, project, uid);
    match build_search_path(path_dirs) {
        Err(error) => {
            return Err(error);
        },
        Ok(joined) => {
            result.insert(text_bytes("PATH"), joined);
        },
    }
    add_locale(&mut result, env);
    add_forwarded(&mut result, env);
    match add_passed(&mut result, env, pass_env) {
        Err(error) => Err(error),
        Ok(_) => Ok(result),
    }
}

/// The canonical form of a path that has to be there.
pub open spec fn existing(facts: FactsView, p: Seq<u8>, label: Seq<char>) -> Result<
    Seq<u8>,
    StopView,
> {
    match canonical_of(facts, p) {
        Err(stop) => Err(stop),
        Ok(ReplyOf::Failed(why)) => fail(
            in_context(
                seq![text("cannot resolve "@)].push(text(label)).push(text(" "@)).push(path(p)),
                host_failure(why),
            ),
        ),
        Ok(ReplyOf::Got(canonical)) => Ok(canonical),
    }
}

/// The canonical form of a directory that has to be there.
pub open spec fn existing_dir(facts: FactsView, p: Seq<u8>, label: Seq<char>) -> Result<
    Seq<u8>,
    StopView,
> {
    match existing(facts, p, label) {
        Err(stop) => Err(stop),
        Ok(canonical) => match is_dir(facts, canonical) {
            Err(stop) => Err(stop),
            Ok(true) => Ok(canonical),
            Ok(false) => fail(
                failure(
                    seq![text(label)].push(text(" "@)).push(path(canonical)).push(
                        text(" is not a directory"@),
                    ),
                ),
            ),
        },
    }
}

pub fn resolve_existing(p: &HostPath, label: &str, host: &HostFacts) -> (r: Result<HostPath, Stop>)
    ensures
        outcome(r) == existing(host@, p@, label@),
{
    match host.canonical(p) {
        Err(stop) => Err(stop),
        Ok(ReplyOf::Failed(why)) => Err(
            StopOf::Fail(
                host_error(why).context(
                    Message::new("cannot resolve ").text(label).text(" ").path(p),
                ),
            ),
        ),
        Ok(ReplyOf::Got(canonical)) => Ok(canonical.copy()),
    }
}

pub fn resolve_directory(p: &HostPath, label: &str, host: &HostFacts) -> (r: Result<HostPath, Stop>)
    ensures
        outcome(r) == existing_dir(host@, p@, label@),
{
    match resolve_existing(p, label, host) {
        Err(stop) => Err(stop),
        Ok(canonical) => match host.is_dir(&canonical) {
            Err(stop) => Err(stop),
            Ok(true) => Ok(canonical),
            Ok(false) => Err(
                StopOf::Fail(
                    Error::new(
                        Message::new(label).text(" ").path(&canonical).text(" is not a directory"),
                    ),
                ),
            ),
        },
    }
}

/// Some paths, and behind them the readable paths from the `i`-th on that were
/// asked for, in canonical form.
pub open spec fn allowed(facts: FactsView, paths: Seq<Seq<u8>>, i: nat, before: Seq<Seq<u8>>) -> Result<
    Seq<Seq<u8>>,
    StopView,
>
    decreases paths.len() - i,
{
    if i >= paths.len() {
        Ok(before)
    } else {
        match existing(facts, paths[i as int], "--allow-read path"@) {
            Err(stop) => Err(stop),
            Ok(canonical) => allowed(facts, paths, i + 1, before.push(canonical)),
        }
    }
}

fn resolve_allowed(paths: &Vec<HostPath>, before: Vec<HostPath>, host: &HostFacts) -> (r: Result<
    Vec<HostPath>,
    Stop,
>)
    ensures
        list_outcome(r) == allowed(host@, views(paths@), 0, views(before@)),
{
    let ghost wanted = views(paths@);
    let ghost whole = allowed(host@, wanted, 0, views(before@));
    let mut all = before;
    let mut i: usize = 0;
    while i < paths.len()
        invariant
            i <= paths.len(),
            wanted == views(paths@),
            whole == allowed(host@, wanted, 0, views(before@)),
            whole == allowed(host@, wanted, i as nat, views(all@)),
        decreases paths.len() - i,
    {
        assert(wanted[i as int] == paths@[i as int]@);
        match resolve_existing(&paths[i], "--allow-read path", host) {
            Err(stop) => {
                return Err(stop);
            },
            Ok(canonical) => {
                all.push(canonical);
            },
        }
        i += 1;
    }
    assert(wanted.len() == i);
    Ok(all)
}

/// The first `n` paths, those of the project left out.
pub open spec fn outside(paths: Seq<Seq<u8>>, project: Seq<u8>, n: nat) -> Seq<Seq<u8>>
    decreases n,
{
    if n == 0 {
        Seq::empty()
    } else if is_under(paths[n - 1], project) {
        outside(paths, project, (n - 1) as nat)
    } else {
        outside(paths, project, (n - 1) as nat).push(paths[n - 1])
    }
}

fn keep_outside(paths: Vec<HostPath>, project: &HostPath) -> (r: Vec<HostPath>)
    ensures
        views(r@) == outside(views(paths@), project@, paths@.len()),
{
    let ghost all = views(paths@);
    let mut kept: Vec<HostPath> = Vec::new();
    let mut i: usize = 0;
    assert(views(kept@) =~= Seq::empty());
    while i < paths.len()
        invariant
            i <= paths.len(),
            all == views(paths@),
            views(kept@) == outside(all, project@, i as nat),
        decreases paths.len() - i,
    {
        assert(all[i as int] == paths@[i as int]@);
        if !paths[i].starts_with(project) {
            kept.push(paths[i].copy());
        }
        i += 1;
    }
    kept
}

/// The mounts that the sandbox may read: none of them in the project.
pub open spec fn readable_roots(paths: Seq<Seq<u8>>, project: Seq<u8>) -> Seq<Seq<u8>> {
    roots(outside(paths, project, paths.len()))
}

pub open spec fn state_dir_of(project: Seq<u8>) -> Seq<u8> {
    join(project, bytes_of(".sbox/state"@))
}

/// The home directory, in canonical form.
pub open spec fn home_of(facts: FactsView, value: Option<Seq<u8>>) -> Result<Seq<u8>, StopView> {
    match value {
        None => fail(failure(seq![text("HOME is not set"@)])),
        Some(home) => if !is_absolute(home) {
            fail(failure(seq![text("HOME must be an absolute path"@)]))
        } else {
            match canonical_of(facts, home) {
                Err(stop) => Err(stop),
                Ok(ReplyOf::Failed(why)) => fail(
                    in_context(
                        seq![text("cannot resolve HOME "@)].push(path(home)),
                        host_failure(why),
                    ),
                ),
                Ok(ReplyOf::Got(canonical)) => Ok(canonical),
            }
        },
    }
}

fn resolve_home(env: &HostEnv, host: &HostFacts) -> (r: Result<HostPath, Stop>)
    ensures
        outcome(r) == home_of(host@, variable(env@, bytes_of("HOME"@))),
{
    let name = text_bytes("HOME");
    match env.get(name.as_slice()) {
        None => Err(StopOf::Fail(Error::new(Message::new("HOME is not set")))),
        Some(value) => {
            let home = HostPath::from_bytes(value.as_slice());
            if !home.is_absolute() {
                return Err(
                    StopOf::Fail(Error::new(Message::new("HOME must be an absolute path"))),
                );
            }
            match host.canonical(&home) {
                Err(stop) => Err(stop),
                Ok(ReplyOf::Failed(why)) => Err(
                    StopOf::Fail(
                        host_error(why).context(Message::new("cannot resolve HOME ").path(&home)),
                    ),
                ),
                Ok(ReplyOf::Got(canonical)) => Ok(canonical.copy()),
            }
        },
    }
}

pub struct PartsView {
    pub bwrap: Seq<u8>,
    pub project: Seq<u8>,
    pub home: Seq<u8>,
    pub omp: RuntimeView,
    pub found: DiscoveryView,
}

/// Puts the parts of a launch together.
pub open spec fn assembled(
    facts: FactsView,
    parts: PartsView,
    vars: Seq<(Seq<u8>, Seq<u8>)>,
    allow_read: Seq<Seq<u8>>,
    pass_env: Seq<Seq<u8>>,
) -> Result<LaunchView, StopView> {
    match allowed(facts, allow_read, 0, parts.omp.mount_roots + parts.found.mount_roots) {
        Err(stop) => Err(stop),
        Ok(readable) => match owner_of(facts, parts.home) {
            Err(stop) => Err(stop),
            Ok(ReplyOf::Failed(why)) => fail(host_failure(why)),
            Ok(ReplyOf::Got(uid)) => match environment(
                vars,
                parts.home,
                parts.project,
                uid,
                parts.omp.path_dirs + parts.found.path_dirs,
                pass_env,
            ) {
                Err(error) => fail(error),
                Ok(map) => Ok(
                    LaunchView {
                        bwrap: parts.bwrap,
                        project: parts.project,
                        home: parts.home,
                        state_dir: state_dir_of(parts.project),
                        uid,
                        omp: parts.omp,
                        read_only: readable_roots(readable, parts.project),
                        environment: map,
                        warnings: parts.found.warnings,
                    },
                ),
            },
        },
    }
}

/// Finds the programs and places of a launch.
pub open spec fn launch_parts(
    facts: FactsView,
    vars: Seq<(Seq<u8>, Seq<u8>)>,
    project: Seq<u8>,
) -> Result<PartsView, StopView> {
    match variable(vars, bytes_of("PATH"@)) {
        None => fail(failure(seq![text("PATH is not set"@)])),
        Some(host_path) => match home_of(facts, variable(vars, bytes_of("HOME"@))) {
            Err(stop) => Err(stop),
            Ok(home) => match existing_dir(facts, project, "project"@) {
                Err(stop) => Err(stop),
                Ok(project) => programs(facts, home, project, host_path),
            },
        },
    }
}

pub open spec fn programs(
    facts: FactsView,
    home: Seq<u8>,
    project: Seq<u8>,
    host_path: Seq<u8>,
) -> Result<PartsView, StopView> {
    match resolved(facts, bytes_of("bwrap"@), host_path, None) {
        Err(stop) => Err(
            stop_context(seq![text("cannot resolve required Bubblewrap executable"@)], stop),
        ),
        Ok(bwrap) => match runtime(facts, bytes_of("omp"@), host_path, home) {
            Err(stop) => Err(
                stop_context(seq![text("cannot resolve required OMP runtime"@)], stop),
            ),
            Ok(omp) => match discovery(facts, home, project, host_path) {
                Err(stop) => Err(stop),
                Ok(found) => Ok(PartsView { bwrap, project, home, omp, found }),
            },
        },
    }
}

/// The launch that a command line asks for.
pub open spec fn launch(
    facts: FactsView,
    vars: Seq<(Seq<u8>, Seq<u8>)>,
    project: Seq<u8>,
    allow_read: Seq<Seq<u8>>,
    pass_env: Seq<Seq<u8>>,
) -> Result<LaunchView, StopView> {
    match launch_parts(facts, vars, project) {
        Err(stop) => Err(stop),
        Ok(parts) => assembled(facts, parts, vars, allow_read, pass_env),
    }
}

/// The programs and places of a launch.
pub struct Parts {
    pub bwrap: HostPath,
    pub project: HostPath,
    pub home: HostPath,
    pub omp: Runtime,
    pub found: Discovery,
}

impl View for Parts {
    type V = PartsView;

    open spec fn view(&self) -> PartsView {
        PartsView {
            bwrap: self.bwrap@,
            project: self.project@,
            home: self.home@,
            omp: self.omp@,
            found: self.found@,
        }
    }
}

impl Cli {
    fn find_programs(
        &self,
        home: HostPath,
        project: HostPath,
        host_path: &[u8],
        host: &HostFacts,
    ) -> (r: Result<Parts, Stop>)
        ensures
            outcome(r) == programs(host@, home@, project@, host_path@),
    {
        let wanted = text_bytes("bwrap");
        let bwrap = match resolve_executable(wanted.as_slice(), host_path, None, host) {
            Err(stop) => {
                return Err(
                    stop.context(Message::new("cannot resolve required Bubblewrap executable")),
                );
            },
            Ok(bwrap) => bwrap,
        };
        let program = text_bytes("omp");
        let omp = match resolve_runtime(program.as_slice(), host_path, &home, host) {
            Err(stop) => {
                return Err(stop.context(Message::new("cannot resolve required OMP runtime")));
            },
            Ok(omp) => omp,
        };
        let policy = McpDiscoveryPolicy { strict: self.strict_mcp };
        match discover_mcp_mounts_with_policy(&home, &project, host_path, policy, host) {
            Err(stop) => Err(stop),
            Ok(found) => Ok(Parts { bwrap, project, home, omp, found }),
        }
    }

    fn find_parts(&self, env: &HostEnv, host: &HostFacts) -> (r: Result<Parts, Stop>)
        ensures
            outcome(r) == launch_parts(host@, env@, self.project@),
    {
        let name = text_bytes("PATH");
        let host_path = match env.get(name.as_slice()) {
            None => {
                return Err(StopOf::Fail(Error::new(Message::new("PATH is not set"))));
            },
            Some(value) => value.as_slice(),
        };
        let home = match resolve_home(env, host) {
            Err(stop) => {
                return Err(stop);
            },
            Ok(home) => home,
        };
        match resolve_directory(&self.project, "project", host) {
            Err(stop) => Err(stop),
            Ok(project) => self.find_programs(home, project, host_path, host),
        }
    }

    fn assemble(&self, parts: Parts, env: &HostEnv, host: &HostFacts) -> (r: Result<
        LaunchSpec,
        Stop,
    >)
        ensures
            outcome(r) == assembled(
                host@,
                parts@,
                env@,
                views(self.allow_read@),
                views(self.pass_env@),
            ),
    {
        let mut readable = copy_paths(&parts.omp.mount_roots);
        let mut more_roots = copy_paths(&parts.found.mount_roots);
        readable.append(&mut more_roots);
        let readable = match resolve_allowed(&self.allow_read, readable, host) {
            Err(stop) => {
                return Err(stop);
            },
            Ok(readable) => readable,
        };
        assert(views(readable@).len() == readable@.len());
        let read_only = dedupe_roots(keep_outside(readable, &parts.project));
        let mut path_dirs = copy_paths(&parts.omp.path_dirs);
        let mut more_dirs = copy_paths(&parts.found.path_dirs);
        path_dirs.append(&mut more_dirs);
        let uid = match host.owner(&parts.home) {
            Err(stop) => {
                return Err(stop);
            },
            Ok(ReplyOf::Failed(why)) => {
                return Err(StopOf::Fail(host_error(why)));
            },
            Ok(ReplyOf::Got(uid)) => *uid,
        };
        let environment = match build_environment(
            &parts.home,
            &parts.project,
            uid,
            &path_dirs,
            &self.pass_env,
            env,
        ) {
            Err(error) => {
                return Err(StopOf::Fail(error));
            },
            Ok(environment) => environment,
        };
        let state_dir = parts.project.join_text(".sbox/state");
        Ok(
            LaunchSpec {
                bwrap: parts.bwrap,
                project: parts.project,
                home: parts.home,
                state_dir,
                uid,
                omp: parts.omp,
                read_only,
                environment,
                warnings: parts.found.warnings,
            },
        )
    }

    /// Works out the launch that the command line asks for.
    pub fn launch_spec(&self, env: &HostEnv, host: &HostFacts) -> (r: Result<LaunchSpec, Stop>)
        ensures
            outcome(r) == launch(
                host@,
                env@,
                self.project@,
                views(self.allow_read@),
                views(self.pass_env@),
            ),
    {
        match self.find_parts(env, host) {
            Err(stop) => Err(stop),
            Ok(parts) => self.assemble(parts, env, host),
        }
    }
}

/// The variables that every sandbox has, whatever the environment of the process.
pub open spec fn fixed_names() -> Seq<Seq<char>> {
    seq![
        "HOME"@,
        "USER"@,
        "LOGNAME"@,
        "SHELL"@,
        "PWD"@,
        "TERM"@,
        "COLORTERM"@,
        "LANG"@,
        "XDG_RUNTIME_DIR"@,
        "PI_CONFIG_DIR"@,
        "PATH"@,
    ]
}

/// A host word that one of the names spells.
pub open spec fn is_one_of(names: Seq<Seq<char>>, name: Seq<u8>) -> bool {
    exists|i: int| 0 <= i < names.len() && bytes_of(#[trigger] names[i]) == name
}

proof fn lemma_basic_names(
    vars: Seq<(Seq<u8>, Seq<u8>)>,
    home: Seq<u8>,
    project: Seq<u8>,
    uid: u32,
    joined: Seq<u8>,
    name: Seq<u8>,
)
    requires
        basic_environment(vars, home, project, uid).insert(
            bytes_of("PATH"@),
            joined,
        ).dom().contains(name),
    ensures
        is_one_of(fixed_names(), name),
{
    let names = fixed_names();
    assert(names[0] == "HOME"@ && names[1] == "USER"@ && names[2] == "LOGNAME"@ && names[3]
        == "SHELL"@ && names[4] == "PWD"@ && names[5] == "TERM"@ && names[6] == "COLORTERM"@
        && names[7] == "LANG"@ && names[8] == "XDG_RUNTIME_DIR"@ && names[9] == "PI_CONFIG_DIR"@
        && names[10] == "PATH"@);
}

proof fn lemma_locale_names(
    map: Map<Seq<u8>, Seq<u8>>,
    vars: Seq<(Seq<u8>, Seq<u8>)>,
    i: nat,
    name: Seq<u8>,
)
    requires
        with_locale(map, vars, i).dom().contains(name),
    ensures
        map.dom().contains(name) || is_locale_name(name),
    decreases vars.len() - i,
{
    if i < vars.len() {
        if is_locale_name(vars[i as int].0) {
            lemma_locale_names(
                map.insert(vars[i as int].0, vars[i as int].1),
                vars,
                i + 1,
                name,
            );
        } else {
            lemma_locale_names(map, vars, i + 1, name);
        }
    }
}

proof fn lemma_forwarded_names(
    map: Map<Seq<u8>, Seq<u8>>,
    vars: Seq<(Seq<u8>, Seq<u8>)>,
    names: Seq<Seq<char>>,
    i: nat,
)
    ensures
        forall|name: Seq<u8>| #[trigger]
            with_forwarded(map, vars, names, i).dom().contains(name) ==> map.dom().contains(name)
                || is_one_of(names, name),
        forall|name: Seq<u8>|
            map.dom().contains(name) && variable(vars, name) == Some(map[name])
                ==> #[trigger] with_forwarded(map, vars, names, i).dom().contains(name)
                && variable(vars, name) == Some(with_forwarded(map, vars, names, i)[name]),
        forall|k: int|
            i <= k < names.len() && variable(vars, bytes_of(#[trigger] names[k])) is Some
                ==> with_forwarded(map, vars, names, i).dom().contains(bytes_of(names[k]))
                && variable(vars, bytes_of(names[k])) == Some(
                with_forwarded(map, vars, names, i)[bytes_of(names[k])],
            ),
    decreases names.len() - i,
{
    if i < names.len() {
        let key = bytes_of(names[i as int]);
        assert(is_one_of(names, key));
        match variable(vars, key) {
            Some(value) => {
                let next = map.insert(key, value);
                lemma_forwarded_names(next, vars, names, i + 1);
                let last = with_forwarded(map, vars, names, i);
                assert(last == with_forwarded(next, vars, names, i + 1));
                assert(next.dom().contains(key) && variable(vars, key) == Some(next[key]));
                assert(last.dom().contains(key));
                assert forall|name: Seq<u8>| #[trigger] last.dom().contains(name) implies
                    map.dom().contains(name) || is_one_of(names, name) by {
                    assert(next.dom().contains(name) || is_one_of(names, name));
                }
                assert forall|name: Seq<u8>|
                    map.dom().contains(name) && variable(vars, name) == Some(
                        map[name],
                    ) implies #[trigger] last.dom().contains(name) && variable(vars, name) == Some(
                    last[name],
                ) by {
                    assert(next.dom().contains(name) && variable(vars, name) == Some(next[name]));
                }
            },
            None => {
                lemma_forwarded_names(map, vars, names, i + 1);
                assert(with_forwarded(map, vars, names, i) == with_forwarded(
                    map,
                    vars,
                    names,
                    i + 1,
                ));
            },
        }
    }
}

proof fn lemma_passed_names(
    map: Map<Seq<u8>, Seq<u8>>,
    vars: Seq<(Seq<u8>, Seq<u8>)>,
    names: Seq<Seq<u8>>,
    i: nat,
)
    requires
        with_passed(map, vars, names, i) is Ok,
    ensures
        forall|name: Seq<u8>| #[trigger]
            with_passed(map, vars, names, i)->Ok_0.dom().contains(name) ==> map.dom().contains(
                name,
            ) || names.contains(name),
        forall|name: Seq<u8>|
            map.dom().contains(name) && variable(vars, name) == Some(map[name])
                ==> #[trigger] with_passed(map, vars, names, i)->Ok_0.dom().contains(name)
                && variable(vars, name) == Some(with_passed(map, vars, names, i)->Ok_0[name]),
        forall|k: int|
            i <= k < names.len() ==> is_env_name(#[trigger] names[k]) && with_passed(
                map,
                vars,
                names,
                i,
            )->Ok_0.dom().contains(names[k]) && variable(vars, names[k]) == Some(
                with_passed(map, vars, names, i)->Ok_0[names[k]],
            ),
    decreases names.len() - i,
{
    if i < names.len() {
        let key = names[i as int];
        assert(names.contains(key));
        let value = variable(vars, key)->Some_0;
        let next = map.insert(key, value);
        lemma_passed_names(next, vars, names, i + 1);
        let last = with_passed(map, vars, names, i)->Ok_0;
        assert(next.dom().contains(key) && variable(vars, key) == Some(next[key]));
        assert(last.dom().contains(key));
        assert forall|name: Seq<u8>| #[trigger] last.dom().contains(name) implies
            map.dom().contains(name) || names.contains(name) by {
            assert(next.dom().contains(name) || names.contains(name));
        }
        assert forall|name: Seq<u8>|
            map.dom().contains(name) && variable(vars, name) == Some(
                map[name],
            ) implies #[trigger] last.dom().contains(name) && variable(vars, name) == Some(
            last[name],
        ) by {
            assert(next.dom().contains(name) && variable(vars, name) == Some(next[name]));
        }
    }
}

/// A sandbox sees no variables but those that every sandbox has, the locale,
/// those that are always handed on, and those that were asked for.
pub proof fn law_environment_is_closed(
    vars: Seq<(Seq<u8>, Seq<u8>)>,
    home: Seq<u8>,
    project: Seq<u8>,
    uid: u32,
    path_dirs: Seq<Seq<u8>>,
    pass_env: Seq<Seq<u8>>,
    map: Map<Seq<u8>, Seq<u8>>,
    name: Seq<u8>,
)
    requires
        environment(vars, home, project, uid, path_dirs, pass_env) == Ok::<
            Map<Seq<u8>, Seq<u8>>,
            ErrorView,
        >(map),
        map.dom().contains(name),
    ensures
        is_one_of(fixed_names(), name) || is_locale_name(name) || is_one_of(
            forwarded_names(),
            name,
        ) || pass_env.contains(name),
{
    let joined = search_path(path_dirs)->Ok_0;
    let first = basic_environment(vars, home, project, uid).insert(bytes_of("PATH"@), joined);
    let second = with_locale(first, vars, 0);
    let third = with_forwarded(second, vars, forwarded_names(), 0);
    lemma_passed_names(third, vars, pass_env, 0);
    lemma_forwarded_names(second, vars, forwarded_names(), 0);
    if !pass_env.contains(name) {
        assert(third.dom().contains(name));
        if !is_one_of(forwarded_names(), name) {
            assert(second.dom().contains(name));
            lemma_locale_names(first, vars, 0, name);
            if !is_locale_name(name) {
                lemma_basic_names(vars, home, project, uid, joined, name);
            }
        }
    }
}

/// Every variable that was asked for has a proper name and is there with the
/// value that the process has for it; so is every variable that is always handed
/// on, where the process has it.
pub proof fn law_asked_variables_are_handed_on(
    vars: Seq<(Seq<u8>, Seq<u8>)>,
    home: Seq<u8>,
    project: Seq<u8>,
    uid: u32,
    path_dirs: Seq<Seq<u8>>,
    pass_env: Seq<Seq<u8>>,
    map: Map<Seq<u8>, Seq<u8>>,
)
    requires
        environment(vars, home, project, uid, path_dirs, pass_env) == Ok::<
            Map<Seq<u8>, Seq<u8>>,
            ErrorView,
        >(map),
    ensures
        forall|i: int|
            0 <= i < pass_env.len() ==> is_env_name(#[trigger] pass_env[i]) && map.dom().contains(
                pass_env[i],
            ) && variable(vars, pass_env[i]) == Some(map[pass_env[i]]),
        forall|i: int|
            0 <= i < forwarded_names().len() && variable(
                vars,
                bytes_of(#[trigger] forwarded_names()[i]),
            ) is Some ==> map.dom().contains(bytes_of(forwarded_names()[i])) && variable(
                vars,
                bytes_of(forwarded_names()[i]),
            ) == Some(map[bytes_of(forwarded_names()[i])]),
{
    let joined = search_path(path_dirs)->Ok_0;
    let first = basic_environment(vars, home, project, uid).insert(bytes_of("PATH"@), joined);
    let second = with_locale(first, vars, 0);
    let third = with_forwarded(second, vars, forwarded_names(), 0);
    lemma_passed_names(third, vars, pass_env, 0);
    lemma_forwarded_names(second, vars, forwarded_names(), 0);
    assert forall|i: int|
        0 <= i < forwarded_names().len() && variable(
            vars,
            bytes_of(#[trigger] forwarded_names()[i]),
        ) is Some implies map.dom().contains(bytes_of(forwarded_names()[i])) && variable(
        vars,
        bytes_of(forwarded_names()[i]),
    ) == Some(map[bytes_of(forwarded_names()[i])]) by {
        let name = bytes_of(forwarded_names()[i]);
        assert(third.dom().contains(name) && variable(vars, name) == Some(third[name]));
        assert(map.dom().contains(name));
    }
}

proof fn lemma_outside(paths: Seq<Seq<u8>>, project: Seq<u8>, n: nat)
    requires
        n <= paths.len(),
    ensures
        forall|k: int|
            0 <= k < outside(paths, project, n).len() ==> !is_under(
                #[trigger] outside(paths, project, n)[k],
                project,
            ),
        forall|i: int|
            0 <= i < n && !is_under(#[trigger] paths[i], project) ==> outside(
                paths,
                project,
                n,
            ).contains(paths[i]),
    decreases n,
{
    if n > 0 {
        let m = (n - 1) as nat;
        let before = outside(paths, project, m);
        let after = outside(paths, project, n);
        lemma_outside(paths, project, m);
        assert forall|i: int| 0 <= i < n && !is_under(#[trigger] paths[i], project) implies
            after.contains(paths[i]) by {
            if i < m {
                let k = before.index_of(paths[i]);
                assert(after[k] == paths[i]);
            } else {
                assert(after[after.len() - 1] == paths[i]);
            }
        }
    }
}

proof fn lemma_allowed_keeps(
    facts: FactsView,
    paths: Seq<Seq<u8>>,
    i: nat,
    before: Seq<Seq<u8>>,
)
    requires
        allowed(facts, paths, i, before) is Ok,
    ensures
        forall|p: Seq<u8>|
            before.contains(p) ==> #[trigger] allowed(facts, paths, i, before)->Ok_0.contains(p),
        forall|k: int|
            i <= k < paths.len() ==> existing(facts, #[trigger] paths[k], "--allow-read path"@) is Ok
                && allowed(facts, paths, i, before)->Ok_0.contains(
                existing(facts, paths[k], "--allow-read path"@)->Ok_0,
            ),
    decreases paths.len() - i,
{
    if i < paths.len() {
        let canonical = existing(facts, paths[i as int], "--allow-read path"@)->Ok_0;
        let next = before.push(canonical);
        lemma_allowed_keeps(facts, paths, i + 1, next);
        assert(next[before.len() as int] == canonical);
        assert(next.contains(canonical));
        assert forall|p: Seq<u8>| before.contains(p) implies #[trigger] allowed(
            facts,
            paths,
            i,
            before,
        )->Ok_0.contains(p) by {
            let k = before.index_of(p);
            assert(next[k] == p);
            assert(next.contains(p));
        }
    }
}

/// The mounts of a launch: none lies in the project or below another, and every
/// path that OMP or a server needs, or that was asked for, lies in the project
/// or below one of them.
#[verifier::spinoff_prover]
#[verifier::rlimit(40)]
pub proof fn law_launch_mounts(
    facts: FactsView,
    vars: Seq<(Seq<u8>, Seq<u8>)>,
    project: Seq<u8>,
    allow_read: Seq<Seq<u8>>,
    pass_env: Seq<Seq<u8>>,
    spec: LaunchView,
)
    requires
        launch(facts, vars, project, allow_read, pass_env) == Ok::<LaunchView, StopView>(spec),
    ensures
        none_nested(spec.read_only),
        strictly_ordered(spec.read_only),
        forall|k: int|
            0 <= k < spec.read_only.len() ==> !is_under(
                #[trigger] spec.read_only[k],
                spec.project,
            ),
        forall|p: Seq<u8>|
            (spec.omp.mount_roots.contains(p) || launch_parts(
                facts,
                vars,
                project,
            )->Ok_0.found.mount_roots.contains(p)) ==> #[trigger] is_readable(spec, p),
        forall|i: int|
            0 <= i < allow_read.len() ==> existing(
                facts,
                #[trigger] allow_read[i],
                "--allow-read path"@,
            ) is Ok && is_readable(
                spec,
                existing(facts, allow_read[i], "--allow-read path"@)->Ok_0,
            ),
{
    let parts = launch_parts(facts, vars, project)->Ok_0;
    let needed = parts.omp.mount_roots + parts.found.mount_roots;
    let readable = allowed(facts, allow_read, 0, needed)->Ok_0;
    let kept = outside(readable, parts.project, readable.len());
    assert(spec.read_only == roots(kept));
    law_roots_cover(kept);
    lemma_outside(readable, parts.project, readable.len());
    lemma_allowed_keeps(facts, allow_read, 0, needed);
    assert forall|k: int| 0 <= k < spec.read_only.len() implies !is_under(
        #[trigger] spec.read_only[k],
        spec.project,
    ) by {
        let j = kept.index_of(spec.read_only[k]);
        assert(kept[j] == spec.read_only[k]);
    }
    assert forall|p: Seq<u8>| readable.contains(p) implies #[trigger] is_readable(spec, p) by {
        if !is_under(p, spec.project) {
            let i = readable.index_of(p);
            assert(readable[i] == p);
            assert(kept.contains(p));
            let j = kept.index_of(p);
            assert(kept[j] == p);
            let k = choose|k: int|
                0 <= k < roots(kept).len() && is_under(kept[j], #[trigger] roots(kept)[k]);
            assert(is_under(p, spec.read_only[k]));
        }
    }
    assert forall|p: Seq<u8>|
        parts.omp.mount_roots.contains(p) || parts.found.mount_roots.contains(
            p,
        ) implies #[trigger] is_readable(spec, p) by {
        if parts.omp.mount_roots.contains(p) {
            assert(needed[parts.omp.mount_roots.index_of(p)] == p);
        } else {
            assert(needed[parts.omp.mount_roots.len() + parts.found.mount_roots.index_of(p)] == p);
        }
        assert(needed.contains(p));
        assert(readable.contains(p));
    }
}

/// A sandbox can read a path: it lies in the project or below a mount.
pub open spec fn is_readable(spec: LaunchView, p: Seq<u8>) -> bool {
    is_under(p, spec.project) || exists|k: int|
        0 <= k < spec.read_only.len() && is_under(p, #[trigger] spec.read_only[k])
}

proof fn lemma_colons_part(dirs: Seq<Seq<u8>>)
    requires
        dirs.len() > 0,
        !has_colon(dirs),
    ensures
        split(with_colons(dirs), seq![COLON]) == dirs,
    decreases dirs.len(),
{
    assert(!dirs[dirs.len() - 1].contains(COLON));
    if dirs.len() == 1 {
        lemma_split_one(dirs[0], COLON);
        assert(dirs =~= seq![dirs[0]]);
    } else {
        let front = dirs.drop_last();
        assert(!has_colon(front)) by {
            if has_colon(front) {
                let i = choose|i: int|
                    0 <= i < front.len() && (#[trigger] front[i]).contains(COLON);
                assert(dirs[i].contains(COLON));
            }
        }
        lemma_colons_part(front);
        lemma_split_on(with_colons(front), COLON, dirs.last());
        assert(front.push(dirs.last()) =~= dirs);
    }
}

/// One of the directories is `dir`, however it is spelled.
pub open spec fn lists(dirs: Seq<Seq<u8>>, dir: Seq<u8>) -> bool {
    exists|j: int| 0 <= j < dirs.len() && components(#[trigger] dirs[j]) == components(dir)
}

/// A host word is told by its text.
proof fn lemma_words_tell()
    ensures
        forall|a: Seq<char>, b: Seq<char>| #[trigger]
            bytes_of(a) == #[trigger] bytes_of(b) ==> a == b,
{
    assert forall|a: Seq<char>, b: Seq<char>| #[trigger]
        bytes_of(a) == #[trigger] bytes_of(b) implies a == b by {
        lemma_bytes_tell(a, b);
    }
}

proof fn lemma_fixed_lengths(i: int)
    requires
        0 <= i < fixed_names().len(),
    ensures
        is_ascii_chars(fixed_names()[i]),
        ({
            let n = fixed_names()[i].len();
            n == 3 || n == 4 || n == 5 || n == 7 || n == 9 || n == 13 || n == 15
        }),
        fixed_names()[i].len() == 13 ==> fixed_names()[i][3] == 'C',
        fixed_names()[i][0] == 'L' ==> fixed_names()[i][1] != 'C',
{
    reveal_strlit("HOME");
    reveal_strlit("USER");
    reveal_strlit("LOGNAME");
    reveal_strlit("SHELL");
    reveal_strlit("PWD");
    reveal_strlit("TERM");
    reveal_strlit("COLORTERM");
    reveal_strlit("LANG");
    reveal_strlit("XDG_RUNTIME_DIR");
    reveal_strlit("PI_CONFIG_DIR");
    reveal_strlit("PATH");
}

proof fn lemma_forwarded_lengths(i: int)
    requires
        0 <= i < forwarded_names().len(),
    ensures
        is_ascii_chars(forwarded_names()[i]),
        ({
            let n = forwarded_names()[i].len();
            n == 8 || n == 10 || n == 11 || n == 13 || n == 14 || n >= 16
        }),
        forwarded_names()[i].len() == 13 ==> forwarded_names()[i][3] == 'S'
            || forwarded_names()[i][3] == 'P',
        forwarded_names()[i][0] != 'L',
{
    reveal_strlit("ANTHROPIC_API_KEY");
    reveal_strlit("ANTHROPIC_OAUTH_TOKEN");
    reveal_strlit("OPENAI_API_KEY");
    reveal_strlit("GEMINI_API_KEY");
    reveal_strlit("COPILOT_GITHUB_TOKEN");
    reveal_strlit("OMP_AUTH_BROKER_URL");
    reveal_strlit("OMP_AUTH_BROKER_TOKEN");
    reveal_strlit("OMP_AUTH_BROKER_SNAPSHOT_TTL_MS");
    reveal_strlit("OMP_MCP_TIMEOUT_MS");
    reveal_strlit("PI_SMOL_MODEL");
    reveal_strlit("PI_SLOW_MODEL");
    reveal_strlit("PI_PLAN_MODEL");
    reveal_strlit("CONTEXT7_API_KEY");
    reveal_strlit("CONTEXT7_API_URL");
    reveal_strlit("HTTP_PROXY");
    reveal_strlit("HTTPS_PROXY");
    reveal_strlit("NO_PROXY");
    reveal_strlit("http_proxy");
    reveal_strlit("https_proxy");
    reveal_strlit("no_proxy");
}

proof fn lemma_locale_start(t: Seq<char>)
    requires
        is_ascii_chars(t),
        t.len() >= 3,
        is_locale_name(bytes_of(t)),
    ensures
        t[0] == 'L',
        t[1] == 'C',
{
    reveal_strlit("LC_");
    let wanted = "LC_"@;
    is_ascii_chars_encode_utf8(t);
    is_ascii_chars_encode_utf8(wanted);
    let part = bytes_of(t).subrange(0, 3);
    assert(bytes_of(wanted) == part);
    assert(bytes_of(wanted)[0] == wanted[0] as u8 && bytes_of(wanted)[1] == wanted[1] as u8);
    assert(part[0] == t[0] as u8 && part[1] == t[1] as u8);
}

/// The variables that every sandbox has are none that the locale or the process
/// could change.
proof fn lemma_fixed_apart(name: Seq<char>)
    requires
        fixed_names().contains(name),
    ensures
        !is_locale_name(bytes_of(name)),
        !is_one_of(forwarded_names(), bytes_of(name)),
{
    let i = fixed_names().index_of(name);
    lemma_fixed_lengths(i);
    lemma_words_tell();
    if is_locale_name(bytes_of(name)) {
        lemma_locale_start(name);
    }
    if is_one_of(forwarded_names(), bytes_of(name)) {
        let j = choose|j: int|
            0 <= j < forwarded_names().len() && bytes_of(#[trigger] forwarded_names()[j])
                == bytes_of(name);
        lemma_forwarded_lengths(j);
    }
}

proof fn lemma_forwarded_not_locale(name: Seq<u8>)
    requires
        is_one_of(forwarded_names(), name),
    ensures
        !is_locale_name(name),
{
    let j = choose|j: int|
        0 <= j < forwarded_names().len() && bytes_of(#[trigger] forwarded_names()[j]) == name;
    lemma_forwarded_lengths(j);
    if is_locale_name(name) {
        lemma_locale_start(forwarded_names()[j]);
    }
}

proof fn lemma_locale_keeps(
    map: Map<Seq<u8>, Seq<u8>>,
    vars: Seq<(Seq<u8>, Seq<u8>)>,
    i: nat,
    name: Seq<u8>,
)
    requires
        forall|k: int|
            i <= k < vars.len() && (#[trigger] vars[k]).0 == name ==> !is_locale_name(name),
        map.dom().contains(name),
    ensures
        with_locale(map, vars, i).dom().contains(name),
        with_locale(map, vars, i)[name] == map[name],
    decreases vars.len() - i,
{
    if i < vars.len() {
        assert(vars[i as int].0 == name ==> !is_locale_name(name));
        if is_locale_name(vars[i as int].0) {
            lemma_locale_keeps(
                map.insert(vars[i as int].0, vars[i as int].1),
                vars,
                i + 1,
                name,
            );
        } else {
            lemma_locale_keeps(map, vars, i + 1, name);
        }
    }
}

/// The last of the locale variables of a name counts.
proof fn lemma_locale_set(
    map: Map<Seq<u8>, Seq<u8>>,
    vars: Seq<(Seq<u8>, Seq<u8>)>,
    i: nat,
    k: int,
)
    requires
        i <= k < vars.len(),
        is_locale_name(vars[k].0),
        forall|j: int| k < j < vars.len() ==> (#[trigger] vars[j]).0 != vars[k].0,
    ensures
        with_locale(map, vars, i).dom().contains(vars[k].0),
        with_locale(map, vars, i)[vars[k].0] == vars[k].1,
    decreases vars.len() - i,
{
    if i == k {
        lemma_locale_keeps(map.insert(vars[k].0, vars[k].1), vars, i + 1, vars[k].0);
    } else if is_locale_name(vars[i as int].0) {
        lemma_locale_set(map.insert(vars[i as int].0, vars[i as int].1), vars, i + 1, k);
    } else {
        lemma_locale_set(map, vars, i + 1, k);
    }
}

proof fn lemma_forwarded_keeps(
    map: Map<Seq<u8>, Seq<u8>>,
    vars: Seq<(Seq<u8>, Seq<u8>)>,
    names: Seq<Seq<char>>,
    i: nat,
    name: Seq<u8>,
)
    requires
        !is_one_of(names, name),
        map.dom().contains(name),
    ensures
        with_forwarded(map, vars, names, i).dom().contains(name),
        with_forwarded(map, vars, names, i)[name] == map[name],
    decreases names.len() - i,
{
    if i < names.len() {
        let key = bytes_of(names[i as int]);
        assert(key != name);
        match variable(vars, key) {
            Some(value) => {
                lemma_forwarded_keeps(map.insert(key, value), vars, names, i + 1, name);
            },
            None => {
                lemma_forwarded_keeps(map, vars, names, i + 1, name);
            },
        }
    }
}

proof fn lemma_passed_keeps(
    map: Map<Seq<u8>, Seq<u8>>,
    vars: Seq<(Seq<u8>, Seq<u8>)>,
    names: Seq<Seq<u8>>,
    i: nat,
    name: Seq<u8>,
)
    requires
        with_passed(map, vars, names, i) is Ok,
        !names.contains(name),
        map.dom().contains(name),
    ensures
        with_passed(map, vars, names, i)->Ok_0.dom().contains(name),
        with_passed(map, vars, names, i)->Ok_0[name] == map[name],
    decreases names.len() - i,
{
    if i < names.len() {
        assert(names.contains(names[i as int]));
        let value = variable(vars, names[i as int])->Some_0;
        lemma_passed_keeps(map.insert(names[i as int], value), vars, names, i + 1, name);
    }
}

/// A variable that every sandbox has keeps its value unless it is asked for.
proof fn lemma_fixed_value(
    vars: Seq<(Seq<u8>, Seq<u8>)>,
    home: Seq<u8>,
    project: Seq<u8>,
    uid: u32,
    path_dirs: Seq<Seq<u8>>,
    pass_env: Seq<Seq<u8>>,
    name: Seq<char>,
)
    requires
        environment(vars, home, project, uid, path_dirs, pass_env) is Ok,
        fixed_names().contains(name),
        !pass_env.contains(bytes_of(name)),
    ensures
        ({
            let map = environment(vars, home, project, uid, path_dirs, pass_env)->Ok_0;
            let first = basic_environment(vars, home, project, uid).insert(
                bytes_of("PATH"@),
                search_path(path_dirs)->Ok_0,
            );
            &&& search_path(path_dirs) is Ok
            &&& first.dom().contains(bytes_of(name))
            &&& map.dom().contains(bytes_of(name))
            &&& map[bytes_of(name)] == first[bytes_of(name)]
        }),
{
    let key = bytes_of(name);
    let joined = search_path(path_dirs)->Ok_0;
    let first = basic_environment(vars, home, project, uid).insert(bytes_of("PATH"@), joined);
    let second = with_locale(first, vars, 0);
    let third = with_forwarded(second, vars, forwarded_names(), 0);
    lemma_fixed_apart(name);
    let i = fixed_names().index_of(name);
    assert(fixed_names()[i] == name);
    assert(first.dom().contains(key));
    lemma_locale_keeps(first, vars, 0, key);
    lemma_forwarded_keeps(second, vars, forwarded_names(), 0, key);
    lemma_passed_keeps(third, vars, pass_env, 0, key);
}

/// The process has the variable, and the sandbox the same value for it; or the
/// process has none, and the sandbox the given one.
pub open spec fn taken_over(
    vars: Seq<(Seq<u8>, Seq<u8>)>,
    map: Map<Seq<u8>, Seq<u8>>,
    name: Seq<char>,
    default: Seq<u8>,
) -> bool {
    &&& map.dom().contains(bytes_of(name))
    &&& match variable(vars, bytes_of(name)) {
        Some(value) => map[bytes_of(name)] == value,
        None => map[bytes_of(name)] == default,
    }
}

/// What the variables that every sandbox has are set to, unless they are asked
/// for: the home and the project of the launch; the user, the shell, the terminal
/// and the language of the process, where it has them; the run-time directory of
/// the user; and the OMP directory. A locale variable has the value that the
/// process lists last for it.
pub proof fn law_basic_variables(
    vars: Seq<(Seq<u8>, Seq<u8>)>,
    home: Seq<u8>,
    project: Seq<u8>,
    uid: u32,
    path_dirs: Seq<Seq<u8>>,
    pass_env: Seq<Seq<u8>>,
    map: Map<Seq<u8>, Seq<u8>>,
)
    requires
        environment(vars, home, project, uid, path_dirs, pass_env) == Ok::<
            Map<Seq<u8>, Seq<u8>>,
            ErrorView,
        >(map),
    ensures
        !pass_env.contains(bytes_of("HOME"@)) ==> map.dom().contains(bytes_of("HOME"@))
            && map[bytes_of("HOME"@)] == home,
        !pass_env.contains(bytes_of("PWD"@)) ==> map.dom().contains(bytes_of("PWD"@))
            && map[bytes_of("PWD"@)] == project,
        !pass_env.contains(bytes_of("XDG_RUNTIME_DIR"@)) ==> map.dom().contains(
            bytes_of("XDG_RUNTIME_DIR"@),
        ) && map[bytes_of("XDG_RUNTIME_DIR"@)] == bytes_of("/run/user/"@) + decimal(uid as nat),
        !pass_env.contains(bytes_of("PI_CONFIG_DIR"@)) ==> map.dom().contains(
            bytes_of("PI_CONFIG_DIR"@),
        ) && map[bytes_of("PI_CONFIG_DIR"@)] == bytes_of(".omp"@),
        !pass_env.contains(bytes_of("USER"@)) ==> taken_over(
            vars,
            map,
            "USER"@,
            bytes_of("user"@),
        ),
        !pass_env.contains(bytes_of("LOGNAME"@)) && !pass_env.contains(bytes_of("USER"@))
            ==> taken_over(vars, map, "LOGNAME"@, map[bytes_of("USER"@)]),
        !pass_env.contains(bytes_of("SHELL"@)) ==> taken_over(
            vars,
            map,
            "SHELL"@,
            bytes_of("/bin/sh"@),
        ),
        !pass_env.contains(bytes_of("TERM"@)) ==> taken_over(
            vars,
            map,
            "TERM"@,
            bytes_of("xterm-256color"@),
        ),
        !pass_env.contains(bytes_of("COLORTERM"@)) ==> taken_over(
            vars,
            map,
            "COLORTERM"@,
            bytes_of("truecolor"@),
        ),
        !pass_env.contains(bytes_of("LANG"@)) ==> taken_over(
            vars,
            map,
            "LANG"@,
            bytes_of("C.UTF-8"@),
        ),
        forall|k: int|
            0 <= k < vars.len() && bytes_of("LC_"@).is_prefix_of((#[trigger] vars[k]).0)
                && !pass_env.contains(vars[k].0) && (forall|j: int|
                k < j < vars.len() ==> (#[trigger] vars[j]).0 != vars[k].0)
                ==> map.dom().contains(vars[k].0) && map[vars[k].0] == vars[k].1,
{
    let names = fixed_names();
    assert(names[0] == "HOME"@ && names[1] == "USER"@ && names[2] == "LOGNAME"@ && names[3]
        == "SHELL"@ && names[4] == "PWD"@ && names[5] == "TERM"@ && names[6] == "COLORTERM"@
        && names[7] == "LANG"@ && names[8] == "XDG_RUNTIME_DIR"@ && names[9] == "PI_CONFIG_DIR"@
        && names[10] == "PATH"@);
    reveal_strlit("HOME");
    reveal_strlit("USER");
    reveal_strlit("LOGNAME");
    reveal_strlit("SHELL");
    reveal_strlit("PWD");
    reveal_strlit("TERM");
    reveal_strlit("COLORTERM");
    reveal_strlit("LANG");
    reveal_strlit("XDG_RUNTIME_DIR");
    reveal_strlit("PI_CONFIG_DIR");
    reveal_strlit("PATH");
    lemma_words_tell();
    assert forall|i: int|
        0 <= i < names.len() && !pass_env.contains(bytes_of(#[trigger] names[i])) implies
        map.dom().contains(bytes_of(names[i])) && map[bytes_of(names[i])] == basic_environment(
        vars,
        home,
        project,
        uid,
    ).insert(bytes_of("PATH"@), search_path(path_dirs)->Ok_0)[bytes_of(names[i])] by {
        assert(names.contains(names[i]));
        lemma_fixed_value(vars, home, project, uid, path_dirs, pass_env, names[i]);
    }
    assert forall|k: int|
        0 <= k < vars.len() && bytes_of("LC_"@).is_prefix_of((#[trigger] vars[k]).0)
            && !pass_env.contains(vars[k].0) && (forall|j: int|
            k < j < vars.len() ==> (#[trigger] vars[j]).0 != vars[k].0) implies
        map.dom().contains(vars[k].0) && map[vars[k].0] == vars[k].1 by {
        let name = vars[k].0;
        let first = basic_environment(vars, home, project, uid).insert(
            bytes_of("PATH"@),
            search_path(path_dirs)->Ok_0,
        );
        let second = with_locale(first, vars, 0);
        let third = with_forwarded(second, vars, forwarded_names(), 0);
        lemma_locale_set(first, vars, 0, k);
        if is_one_of(forwarded_names(), name) {
            lemma_forwarded_not_locale(name);
        }
        lemma_forwarded_keeps(second, vars, forwarded_names(), 0, name);
        lemma_passed_keeps(third, vars, pass_env, 0, name);
    }
}

proof fn lemma_search_dirs(path_dirs: Seq<Seq<u8>>)
    ensures
        forall|i: int|
            0 <= i < path_dirs.len() ==> lists(search_dirs(path_dirs), #[trigger] path_dirs[i]),
        lists(search_dirs(path_dirs), bytes_of("/usr/bin"@)),
        lists(search_dirs(path_dirs), bytes_of("/bin"@)),
        forall|j: int|
            0 <= j < search_dirs(path_dirs).len() ==> path_dirs.contains(
                #[trigger] search_dirs(path_dirs)[j],
            ) || search_dirs(path_dirs)[j] == bytes_of("/usr/bin"@) || search_dirs(path_dirs)[j]
                == bytes_of("/bin"@),
        strictly_ordered(search_dirs(path_dirs)),
        search_dirs(path_dirs).len() > 0,
{
    let usr = bytes_of("/usr/bin"@);
    let bin = bytes_of("/bin"@);
    let wanted = path_dirs.push(usr).push(bin);
    let dirs = search_dirs(path_dirs);
    law_distinct_paths(wanted);
    assert(wanted[path_dirs.len() as int] == usr);
    assert(wanted[path_dirs.len() as int + 1] == bin);
    assert forall|i: int| 0 <= i < wanted.len() implies lists(dirs, #[trigger] wanted[i]) by {
        let k = choose|k: int|
            0 <= k < dirs.len() && components(wanted[i]) == components(#[trigger] dirs[k]);
        assert(components(dirs[k]) == components(wanted[i]));
    }
    assert forall|i: int| 0 <= i < path_dirs.len() implies lists(dirs, #[trigger] path_dirs[i]) by {
        assert(wanted[i] == path_dirs[i]);
    }
    assert forall|j: int| 0 <= j < dirs.len() implies path_dirs.contains(#[trigger] dirs[j])
        || dirs[j] == usr || dirs[j] == bin by {
        let i = wanted.index_of(dirs[j]);
        assert(wanted[i] == dirs[j]);
        if i < path_dirs.len() {
            assert(path_dirs[i] == dirs[j]);
        }
    }
}

/// The search path of a sandbox, unless it is asked for, parts at its colons into
/// the given directories and those of the system, each once however it is
/// spelled, and into no others.
pub proof fn law_search_path(
    vars: Seq<(Seq<u8>, Seq<u8>)>,
    home: Seq<u8>,
    project: Seq<u8>,
    uid: u32,
    path_dirs: Seq<Seq<u8>>,
    pass_env: Seq<Seq<u8>>,
    map: Map<Seq<u8>, Seq<u8>>,
)
    requires
        environment(vars, home, project, uid, path_dirs, pass_env) == Ok::<
            Map<Seq<u8>, Seq<u8>>,
            ErrorView,
        >(map),
        !pass_env.contains(bytes_of("PATH"@)),
    ensures
        map.dom().contains(bytes_of("PATH"@)),
        forall|i: int|
            0 <= i < path_dirs.len() ==> lists(
                split(map[bytes_of("PATH"@)], seq![COLON]),
                #[trigger] path_dirs[i],
            ),
        lists(split(map[bytes_of("PATH"@)], seq![COLON]), bytes_of("/usr/bin"@)),
        lists(split(map[bytes_of("PATH"@)], seq![COLON]), bytes_of("/bin"@)),
        forall|j: int|
            0 <= j < split(map[bytes_of("PATH"@)], seq![COLON]).len() ==> path_dirs.contains(
                #[trigger] split(map[bytes_of("PATH"@)], seq![COLON])[j],
            ) || split(map[bytes_of("PATH"@)], seq![COLON])[j] == bytes_of("/usr/bin"@) || split(
                map[bytes_of("PATH"@)],
                seq![COLON],
            )[j] == bytes_of("/bin"@),
        strictly_ordered(split(map[bytes_of("PATH"@)], seq![COLON])),
{
    let dirs = search_dirs(path_dirs);
    assert(fixed_names()[10] == "PATH"@);
    assert(fixed_names().contains("PATH"@));
    lemma_fixed_value(vars, home, project, uid, path_dirs, pass_env, "PATH"@);
    lemma_search_dirs(path_dirs);
    lemma_colons_part(dirs);
    assert(split(map[bytes_of("PATH"@)], seq![COLON]) == dirs);
}

proof fn lemma_outside_comes_from(paths: Seq<Seq<u8>>, project: Seq<u8>, n: nat, p: Seq<u8>)
    requires
        n <= paths.len(),
        outside(paths, project, n).contains(p),
    ensures
        paths.contains(p),
    decreases n,
{
    let m = (n - 1) as nat;
    let before = outside(paths, project, m);
    let k = outside(paths, project, n).index_of(p);
    if k < before.len() {
        assert(before[k] == p);
        assert(before.contains(p));
        lemma_outside_comes_from(paths, project, m, p);
    } else {
        assert(paths[n - 1] == p);
    }
}

/// The path is the canonical form of one that was asked for.
pub open spec fn was_asked_for(facts: FactsView, allow_read: Seq<Seq<u8>>, p: Seq<u8>) -> bool {
    exists|i: int|
        0 <= i < allow_read.len() && canonical_of(facts, #[trigger] allow_read[i]) == Ok::<
            ReplyOf<Seq<u8>, Seq<char>>,
            StopView,
        >(ReplyOf::Got(p))
}

proof fn lemma_allowed_come_from(
    facts: FactsView,
    paths: Seq<Seq<u8>>,
    i: nat,
    before: Seq<Seq<u8>>,
    p: Seq<u8>,
)
    requires
        allowed(facts, paths, i, before) is Ok,
        allowed(facts, paths, i, before)->Ok_0.contains(p),
    ensures
        before.contains(p) || was_asked_for(facts, paths, p),
    decreases paths.len() - i,
{
    if i < paths.len() {
        let canonical = existing(facts, paths[i as int], "--allow-read path"@)->Ok_0;
        let next = before.push(canonical);
        lemma_allowed_come_from(facts, paths, i + 1, next, p);
        if next.contains(p) {
            let k = next.index_of(p);
            if k < before.len() {
                assert(before[k] == p);
            } else {
                assert(canonical_of(facts, paths[i as int]) == Ok::<
                    ReplyOf<Seq<u8>, Seq<char>>,
                    StopView,
                >(ReplyOf::Got(p)));
            }
        }
    }
}

/// Where the parts of a launch come from. The home is where `HOME` leads, and must
/// be absolute; the project is where the given path leads, and a directory. Both
/// programs are looked for on the search path of the process, and the servers with
/// the home and the project of the launch. The state is kept in the project, and
/// the user is the one who owns the home. What may be read besides the project is
/// needed by OMP or by a server, or was asked for.
pub proof fn law_launch_parts(
    facts: FactsView,
    vars: Seq<(Seq<u8>, Seq<u8>)>,
    project: Seq<u8>,
    allow_read: Seq<Seq<u8>>,
    pass_env: Seq<Seq<u8>>,
    spec: LaunchView,
)
    requires
        launch(facts, vars, project, allow_read, pass_env) == Ok::<LaunchView, StopView>(spec),
    ensures
        variable(vars, bytes_of("HOME"@)) matches Some(home) && is_absolute(home) && canonical_of(
            facts,
            home,
        ) == Ok::<ReplyOf<Seq<u8>, Seq<char>>, StopView>(ReplyOf::Got(spec.home)),
        canonical_of(facts, project) == Ok::<ReplyOf<Seq<u8>, Seq<char>>, StopView>(
            ReplyOf::Got(spec.project),
        ),
        is_dir(facts, spec.project) == Ok::<bool, StopView>(true),
        spec.state_dir == join(spec.project, bytes_of(".sbox/state"@)),
        owner_of(facts, spec.home) == Ok::<ReplyOf<u32, Seq<char>>, StopView>(
            ReplyOf::Got(spec.uid),
        ),
        variable(vars, bytes_of("PATH"@)) matches Some(host_path) && resolved(
            facts,
            bytes_of("bwrap"@),
            host_path,
            None,
        ) == Ok::<Seq<u8>, StopView>(spec.bwrap) && runtime(
            facts,
            bytes_of("omp"@),
            host_path,
            spec.home,
        ) == Ok::<RuntimeView, StopView>(spec.omp) && (discovery(
            facts,
            spec.home,
            spec.project,
            host_path,
        ) matches Ok(found) && spec.warnings == found.warnings && forall|k: int|
            0 <= k < spec.read_only.len() ==> spec.omp.mount_roots.contains(
                #[trigger] spec.read_only[k],
            ) || found.mount_roots.contains(spec.read_only[k]) || was_asked_for(
                facts,
                allow_read,
                spec.read_only[k],
            )),
{
    let parts = launch_parts(facts, vars, project)->Ok_0;
    let needed = parts.omp.mount_roots + parts.found.mount_roots;
    let readable = allowed(facts, allow_read, 0, needed)->Ok_0;
    let kept = outside(readable, parts.project, readable.len());
    law_roots_cover(kept);
    assert forall|k: int| 0 <= k < spec.read_only.len() implies spec.omp.mount_roots.contains(
        #[trigger] spec.read_only[k],
    ) || parts.found.mount_roots.contains(spec.read_only[k]) || was_asked_for(
        facts,
        allow_read,
        spec.read_only[k],
    ) by {
        let p = spec.read_only[k];
        assert(kept.contains(p));
        lemma_outside_comes_from(readable, parts.project, readable.len(), p);
        lemma_allowed_come_from(facts, allow_read, 0, needed, p);
        if needed.contains(p) {
            let j = needed.index_of(p);
            if j < parts.omp.mount_roots.len() {
                assert(parts.omp.mount_roots[j] == p);
            } else {
                assert(parts.found.mount_roots[j - parts.omp.mount_roots.len()] == p);
            }
        }
    }
}

#[verifier::spinoff_prover]
proof fn lemma_launch_environment(
    facts: FactsView,
    vars: Seq<(Seq<u8>, Seq<u8>)>,
    project: Seq<u8>,
    allow_read: Seq<Seq<u8>>,
    pass_env: Seq<Seq<u8>>,
    spec: LaunchView,
    host_path: Seq<u8>,
    found: DiscoveryView,
)
    requires
        launch(facts, vars, project, allow_read, pass_env) == Ok::<LaunchView, StopView>(spec),
        variable(vars, bytes_of("PATH"@)) == Some(host_path),
        discovery(facts, spec.home, spec.project, host_path) == Ok::<DiscoveryView, StopView>(
            found,
        ),
    ensures
        environment(
            vars,
            spec.home,
            spec.project,
            spec.uid,
            spec.omp.path_dirs + found.path_dirs,
            pass_env,
        ) == Ok::<Map<Seq<u8>, Seq<u8>>, ErrorView>(spec.environment),
{
}

/// What two lists together are listed by, each of them is.
proof fn lemma_dirs_of_both(parted: Seq<Seq<u8>>, first: Seq<Seq<u8>>, second: Seq<Seq<u8>>)
    ensures
        (forall|i: int|
            0 <= i < (first + second).len() ==> lists(parted, #[trigger] (first + second)[i]))
            ==> (forall|i: int| 0 <= i < first.len() ==> lists(parted, #[trigger] first[i])) && (
        forall|i: int| 0 <= i < second.len() ==> lists(parted, #[trigger] second[i])),
        forall|dir: Seq<u8>| #[trigger]
            (first + second).contains(dir) ==> first.contains(dir) || second.contains(dir),
{
    let both = first + second;
    if forall|i: int| 0 <= i < both.len() ==> lists(parted, #[trigger] both[i]) {
        assert forall|i: int| 0 <= i < first.len() implies lists(parted, #[trigger] first[i]) by {
            assert(both[i] == first[i]);
        }
        assert forall|i: int| 0 <= i < second.len() implies lists(parted, #[trigger] second[i]) by {
            assert(both[first.len() + i] == second[i]);
        }
    }
    assert forall|dir: Seq<u8>| #[trigger] both.contains(dir) implies first.contains(dir)
        || second.contains(dir) by {
        let k = both.index_of(dir);
        if k < first.len() {
            assert(first[k] == dir);
        } else {
            assert(second[k - first.len()] == dir);
        }
    }
}

/// The search path of a launch, unless it is asked for: every directory that OMP
/// or a server has its programs in is on it, so are those of the system, and
/// nothing else is.
#[verifier::spinoff_prover]
#[verifier::rlimit(40)]
pub proof fn law_launch_search_path(
    facts: FactsView,
    vars: Seq<(Seq<u8>, Seq<u8>)>,
    project: Seq<u8>,
    allow_read: Seq<Seq<u8>>,
    pass_env: Seq<Seq<u8>>,
    spec: LaunchView,
    host_path: Seq<u8>,
    found: DiscoveryView,
)
    requires
        launch(facts, vars, project, allow_read, pass_env) == Ok::<LaunchView, StopView>(spec),
        variable(vars, bytes_of("PATH"@)) == Some(host_path),
        discovery(facts, spec.home, spec.project, host_path) == Ok::<DiscoveryView, StopView>(
            found,
        ),
        !pass_env.contains(bytes_of("PATH"@)),
    ensures
        spec.environment.dom().contains(bytes_of("PATH"@)),
        forall|i: int|
            0 <= i < spec.omp.path_dirs.len() ==> lists(
                split(spec.environment[bytes_of("PATH"@)], seq![COLON]),
                #[trigger] spec.omp.path_dirs[i],
            ),
        forall|i: int|
            0 <= i < found.path_dirs.len() ==> lists(
                split(spec.environment[bytes_of("PATH"@)], seq![COLON]),
                #[trigger] found.path_dirs[i],
            ),
        lists(split(spec.environment[bytes_of("PATH"@)], seq![COLON]), bytes_of("/usr/bin"@)),
        lists(split(spec.environment[bytes_of("PATH"@)], seq![COLON]), bytes_of("/bin"@)),
        forall|j: int|
            0 <= j < split(spec.environment[bytes_of("PATH"@)], seq![COLON]).len() ==> ({
                let dir = #[trigger] split(spec.environment[bytes_of("PATH"@)], seq![COLON])[j];
                spec.omp.path_dirs.contains(dir) || found.path_dirs.contains(dir) || dir
                    == bytes_of("/usr/bin"@) || dir == bytes_of("/bin"@)
            }),
        strictly_ordered(split(spec.environment[bytes_of("PATH"@)], seq![COLON])),
{
    let dirs = spec.omp.path_dirs + found.path_dirs;
    lemma_launch_environment(facts, vars, project, allow_read, pass_env, spec, host_path, found);
    law_search_path(
        vars,
        spec.home,
        spec.project,
        spec.uid,
        dirs,
        pass_env,
        spec.environment,
    );
    lemma_dirs_of_both(
        split(spec.environment[bytes_of("PATH"@)], seq![COLON]),
        spec.omp.path_dirs,
        found.path_dirs,
    );
}

/// The environment of a launch is that of its home, its project and its user: what
/// holds of the variables that every sandbox has, of those that are handed on and
/// of those that are asked for holds of it.
#[verifier::rlimit(40)]
pub proof fn law_launch_variables(
    facts: FactsView,
    vars: Seq<(Seq<u8>, Seq<u8>)>,
    project: Seq<u8>,
    allow_read: Seq<Seq<u8>>,
    pass_env: Seq<Seq<u8>>,
    spec: LaunchView,
)
    requires
        launch(facts, vars, project, allow_read, pass_env) == Ok::<LaunchView, StopView>(spec),
    ensures
        spec.environment.dom().finite(),
        !pass_env.contains(bytes_of("HOME"@)) ==> spec.environment.dom().contains(
            bytes_of("HOME"@),
        ) && spec.environment[bytes_of("HOME"@)] == spec.home,
        !pass_env.contains(bytes_of("PWD"@)) ==> spec.environment.dom().contains(
            bytes_of("PWD"@),
        ) && spec.environment[bytes_of("PWD"@)] == spec.project,
        !pass_env.contains(bytes_of("XDG_RUNTIME_DIR"@)) ==> spec.environment.dom().contains(
            bytes_of("XDG_RUNTIME_DIR"@),
        ) && spec.environment[bytes_of("XDG_RUNTIME_DIR"@)] == bytes_of("/run/user/"@) + decimal(
            spec.uid as nat,
        ),
        forall|i: int|
            0 <= i < pass_env.len() ==> is_env_name(#[trigger] pass_env[i])
                && spec.environment.dom().contains(pass_env[i]) && variable(vars, pass_env[i])
                == Some(spec.environment[pass_env[i]]),
        forall|i: int|
            0 <= i < forwarded_names().len() && variable(
                vars,
                bytes_of(#[trigger] forwarded_names()[i]),
            ) is Some ==> spec.environment.dom().contains(bytes_of(forwarded_names()[i]))
                && variable(vars, bytes_of(forwarded_names()[i])) == Some(
                spec.environment[bytes_of(forwarded_names()[i])],
            ),
        forall|name: Seq<u8>| #[trigger]
            spec.environment.dom().contains(name) ==> is_one_of(fixed_names(), name)
                || bytes_of("LC_"@).is_prefix_of(name) || is_one_of(forwarded_names(), name)
                || pass_env.contains(name),
{
    let parts = launch_parts(facts, vars, project)->Ok_0;
    let dirs = parts.omp.path_dirs + parts.found.path_dirs;
    law_basic_variables(
        vars,
        spec.home,
        spec.project,
        spec.uid,
        dirs,
        pass_env,
        spec.environment,
    );
    law_asked_variables_are_handed_on(
        vars,
        spec.home,
        spec.project,
        spec.uid,
        dirs,
        pass_env,
        spec.environment,
    );
    assert forall|name: Seq<u8>| #[trigger] spec.environment.dom().contains(name) implies is_one_of(
        fixed_names(),
        name,
    ) || bytes_of("LC_"@).is_prefix_of(name) || is_one_of(forwarded_names(), name)
        || pass_env.contains(name) by {
        law_environment_is_closed(
            vars,
            spec.home,
            spec.project,
            spec.uid,
            dirs,
            pass_env,
            spec.environment,
            name,
        );
    }
    let first = basic_environment(vars, spec.home, spec.project, spec.uid).insert(
        bytes_of("PATH"@),
        search_path(dirs)->Ok_0,
    );
    let second = with_locale(first, vars, 0);
    lemma_locale_finite(first, vars, 0);
    lemma_forwarded_finite(second, vars, forwarded_names(), 0);
    lemma_passed_finite(with_forwarded(second, vars, forwarded_names(), 0), vars, pass_env, 0);
}

proof fn lemma_locale_finite(
    map: Map<Seq<u8>, Seq<u8>>,
    vars: Seq<(Seq<u8>, Seq<u8>)>,
    i: nat,
)
    requires
        map.dom().finite(),
    ensures
        with_locale(map, vars, i).dom().finite(),
    decreases vars.len() - i,
{
    if i < vars.len() {
        if is_locale_name(vars[i as int].0) {
            lemma_locale_finite(map.insert(vars[i as int].0, vars[i as int].1), vars, i + 1);
        } else {
            lemma_locale_finite(map, vars, i + 1);
        }
    }
}

proof fn lemma_forwarded_finite(
    map: Map<Seq<u8>, Seq<u8>>,
    vars: Seq<(Seq<u8>, Seq<u8>)>,
    names: Seq<Seq<char>>,
    i: nat,
)
    requires
        map.dom().finite(),
    ensures
        with_forwarded(map, vars, names, i).dom().finite(),
    decreases names.len() - i,
{
    if i < names.len() {
        match variable(vars, bytes_of(names[i as int])) {
            Some(value) => {
                lemma_forwarded_finite(
                    map.insert(bytes_of(names[i as int]), value),
                    vars,
                    names,
                    i + 1,
                );
            },
            None => {
                lemma_forwarded_finite(map, vars, names, i + 1);
            },
        }
    }
}

proof fn lemma_passed_finite(
    map: Map<Seq<u8>, Seq<u8>>,
    vars: Seq<(Seq<u8>, Seq<u8>)>,
    names: Seq<Seq<u8>>,
    i: nat,
)
    requires
        map.dom().finite(),
        with_passed(map, vars, names, i) is Ok,
    ensures
        with_passed(map, vars, names, i)->Ok_0.dom().finite(),
    decreases names.len() - i,
{
    if i < names.len() {
        let value = variable(vars, names[i as int])->Some_0;
        lemma_passed_finite(map.insert(names[i as int], value), vars, names, i + 1);
    }
}

proof fn lemma_passed_succeeds(
    map: Map<Seq<u8>, Seq<u8>>,
    vars: Seq<(Seq<u8>, Seq<u8>)>,
    names: Seq<Seq<u8>>,
    i: nat,
)
    requires
        forall|k: int|
            i <= k < names.len() ==> is_env_name(#[trigger] names[k]) && variable(
                vars,
                names[k],
            ) is Some,
    ensures
        with_passed(map, vars, names, i) is Ok,
    decreases names.len() - i,
{
    if i < names.len() {
        assert(is_env_name(names[i as int]));
        let value = variable(vars, names[i as int])->Some_0;
        lemma_passed_succeeds(map.insert(names[i as int], value), vars, names, i + 1);
    }
}

proof fn lemma_allowed_succeeds(
    facts: FactsView,
    paths: Seq<Seq<u8>>,
    i: nat,
    before: Seq<Seq<u8>>,
)
    requires
        forall|k: int|
            i <= k < paths.len() ==> (canonical_of(facts, #[trigger] paths[k]) matches Ok(
                ReplyOf::Got(_),
            )),
    ensures
        allowed(facts, paths, i, before) is Ok,
    decreases paths.len() - i,
{
    if i < paths.len() {
        assert(canonical_of(facts, paths[i as int]) matches Ok(ReplyOf::Got(_)));
        let canonical = existing(facts, paths[i as int], "--allow-read path"@)->Ok_0;
        lemma_allowed_succeeds(facts, paths, i + 1, before.push(canonical));
    }
}

proof fn lemma_system_dirs_have_no_colon()
    ensures
        !bytes_of("/usr/bin"@).contains(COLON),
        !bytes_of("/bin"@).contains(COLON),
{
    reveal_strlit("/usr/bin");
    reveal_strlit("/bin");
    is_ascii_chars_encode_utf8("/usr/bin"@);
    is_ascii_chars_encode_utf8("/bin"@);
    assert forall|i: int| 0 <= i < bytes_of("/usr/bin"@).len() implies bytes_of("/usr/bin"@)[i]
        != COLON by {
        assert("/usr/bin"@[i] as u8 == bytes_of("/usr/bin"@)[i]);
    }
    assert forall|i: int| 0 <= i < bytes_of("/bin"@).len() implies bytes_of("/bin"@)[i]
        != COLON by {
        assert("/bin"@[i] as u8 == bytes_of("/bin"@)[i]);
    }
}

/// When a launch is owed: the variables it needs are set, its places are there,
/// both programs and all servers are found, every path that was asked for is
/// there and every variable that was asked for is set, and no directory for the
/// search path has a colon in its name. Nothing else can stand in its way.
#[verifier::rlimit(40)]
pub proof fn law_launch_is_owed(
    facts: FactsView,
    vars: Seq<(Seq<u8>, Seq<u8>)>,
    project: Seq<u8>,
    allow_read: Seq<Seq<u8>>,
    pass_env: Seq<Seq<u8>>,
    host_path: Seq<u8>,
    home_value: Seq<u8>,
    home: Seq<u8>,
    place: Seq<u8>,
    omp: RuntimeView,
    found: DiscoveryView,
)
    requires
        variable(vars, bytes_of("PATH"@)) == Some(host_path),
        variable(vars, bytes_of("HOME"@)) == Some(home_value),
        is_absolute(home_value),
        canonical_of(facts, home_value) == Ok::<ReplyOf<Seq<u8>, Seq<char>>, StopView>(
            ReplyOf::Got(home),
        ),
        canonical_of(facts, project) == Ok::<ReplyOf<Seq<u8>, Seq<char>>, StopView>(
            ReplyOf::Got(place),
        ),
        is_dir(facts, place) == Ok::<bool, StopView>(true),
        resolved(facts, bytes_of("bwrap"@), host_path, None) is Ok,
        runtime(facts, bytes_of("omp"@), host_path, home) == Ok::<RuntimeView, StopView>(omp),
        discovery(facts, home, place, host_path) == Ok::<DiscoveryView, StopView>(found),
        forall|k: int|
            0 <= k < allow_read.len() ==> (canonical_of(facts, #[trigger] allow_read[k]) matches Ok(
                ReplyOf::Got(_),
            )),
        owner_of(facts, home) matches Ok(ReplyOf::Got(_)),
        forall|k: int|
            0 <= k < omp.path_dirs.len() ==> !(#[trigger] omp.path_dirs[k]).contains(COLON),
        forall|k: int|
            0 <= k < found.path_dirs.len() ==> !(#[trigger] found.path_dirs[k]).contains(COLON),
        forall|k: int|
            0 <= k < pass_env.len() ==> is_env_name(#[trigger] pass_env[k]) && variable(
                vars,
                pass_env[k],
            ) is Some,
    ensures
        launch(facts, vars, project, allow_read, pass_env) is Ok,
{
    let parts = launch_parts(facts, vars, project)->Ok_0;
    let dirs = omp.path_dirs + found.path_dirs;
    let uid = owner_of(facts, home)->Ok_0->Got_0;
    lemma_allowed_succeeds(facts, allow_read, 0, omp.mount_roots + found.mount_roots);
    lemma_search_dirs(dirs);
    lemma_system_dirs_have_no_colon();
    if has_colon(search_dirs(dirs)) {
        let i = choose|i: int|
            0 <= i < search_dirs(dirs).len() && (#[trigger] search_dirs(dirs)[i]).contains(COLON);
        let dir = search_dirs(dirs)[i];
        if dirs.contains(dir) {
            let k = dirs.index_of(dir);
            if k < omp.path_dirs.len() {
                assert(!omp.path_dirs[k].contains(COLON));
            } else {
                assert(!found.path_dirs[k - omp.path_dirs.len()].contains(COLON));
            }
        }
    }
    let first = basic_environment(vars, home, place, uid).insert(
        bytes_of("PATH"@),
        search_path(dirs)->Ok_0,
    );
    lemma_passed_succeeds(
        with_forwarded(with_locale(first, vars, 0), vars, forwarded_names(), 0),
        vars,
        pass_env,
        0,
    );
}

/// The variables by which OMP reaches its providers, brokers and proxies.
pub open spec fn provider_names() -> Seq<Seq<char>> {
    seq![
        "ANTHROPIC_API_KEY"@,
        "ANTHROPIC_OAUTH_TOKEN"@,
        "OPENAI_API_KEY"@,
        "GEMINI_API_KEY"@,
        "COPILOT_GITHUB_TOKEN"@,
        "OMP_AUTH_BROKER_URL"@,
        "OMP_AUTH_BROKER_TOKEN"@,
        "OMP_AUTH_BROKER_SNAPSHOT_TTL_MS"@,
        "OMP_MCP_TIMEOUT_MS"@,
        "PI_SMOL_MODEL"@,
        "PI_SLOW_MODEL"@,
        "PI_PLAN_MODEL"@,
        "CONTEXT7_API_KEY"@,
        "CONTEXT7_API_URL"@,
        "HTTP_PROXY"@,
        "HTTPS_PROXY"@,
        "NO_PROXY"@,
        "http_proxy"@,
        "https_proxy"@,
        "no_proxy"@,
    ]
}

/// A launch hands on what its program needs to reach providers, brokers and proxies,
/// wherever it is set, and each variable with its own value; and apart from that it
/// hands on nothing but what every sandbox has, the locale and what was asked for.
#[verifier::rlimit(40)]
pub proof fn law_only_these_are_handed_on(
    facts: FactsView,
    vars: Seq<(Seq<u8>, Seq<u8>)>,
    project: Seq<u8>,
    allow_read: Seq<Seq<u8>>,
    pass_env: Seq<Seq<u8>>,
    spec: LaunchView,
)
    requires
        launch(facts, vars, project, allow_read, pass_env) == Ok::<LaunchView, StopView>(spec),
    ensures
        forall|i: int|
            0 <= i < provider_names().len() ==> (variable(
                vars,
                bytes_of(#[trigger] provider_names()[i]),
            ) matches Some(value) ==> spec.environment.dom().contains(
                bytes_of(provider_names()[i]),
            ) && spec.environment[bytes_of(provider_names()[i])] == value),
        forall|name: Seq<u8>| #[trigger]
            spec.environment.dom().contains(name) ==> is_one_of(fixed_names(), name)
                || bytes_of("LC_"@).is_prefix_of(name) || is_one_of(provider_names(), name)
                || pass_env.contains(name),
{
    law_launch_variables(facts, vars, project, allow_read, pass_env, spec);
    assert(provider_names() =~= forwarded_names());
}

/// What a launch may read holds what OMP needs, what the servers need and what was
/// asked for: each of these lies in the project or below one of its mounts.
pub proof fn law_launch_holds_what_is_needed(
    facts: FactsView,
    vars: Seq<(Seq<u8>, Seq<u8>)>,
    project: Seq<u8>,
    allow_read: Seq<Seq<u8>>,
    pass_env: Seq<Seq<u8>>,
    spec: LaunchView,
    host_path: Seq<u8>,
    found: DiscoveryView,
)
    requires
        launch(facts, vars, project, allow_read, pass_env) == Ok::<LaunchView, StopView>(spec),
        variable(vars, bytes_of("PATH"@)) == Some(host_path),
        discovery(facts, spec.home, spec.project, host_path) == Ok::<DiscoveryView, StopView>(
            found,
        ),
    ensures
        forall|p: Seq<u8>| #[trigger]
            spec.omp.mount_roots.contains(p) ==> is_under(p, spec.project) || exists|k: int|
                0 <= k < spec.read_only.len() && is_under(p, #[trigger] spec.read_only[k]),
        forall|p: Seq<u8>| #[trigger]
            found.mount_roots.contains(p) ==> is_under(p, spec.project) || exists|k: int|
                0 <= k < spec.read_only.len() && is_under(p, #[trigger] spec.read_only[k]),
        forall|i: int, canonical: Seq<u8>|
            0 <= i < allow_read.len() && #[trigger] asked_for(
                facts,
                allow_read[i],
                canonical,
            ) ==> is_under(canonical, spec.project) || exists|k: int|
                0 <= k < spec.read_only.len() && is_under(canonical, #[trigger] spec.read_only[k]),
        forall|i: int|
            0 <= i < allow_read.len() ==> leads_somewhere(facts, #[trigger] allow_read[i]),
{
    law_launch_mounts(facts, vars, project, allow_read, pass_env, spec);
    assert forall|p: Seq<u8>| #[trigger] spec.omp.mount_roots.contains(p) implies is_under(
        p,
        spec.project,
    ) || exists|k: int|
        0 <= k < spec.read_only.len() && is_under(p, #[trigger] spec.read_only[k]) by {
        assert(is_readable(spec, p));
    }
    assert forall|p: Seq<u8>| #[trigger] found.mount_roots.contains(p) implies is_under(
        p,
        spec.project,
    ) || exists|k: int|
        0 <= k < spec.read_only.len() && is_under(p, #[trigger] spec.read_only[k]) by {
        assert(is_readable(spec, p));
    }
    assert forall|i: int| 0 <= i < allow_read.len() implies leads_somewhere(
        facts,
        #[trigger] allow_read[i],
    ) by {
        let canonical = existing(facts, allow_read[i], "--allow-read path"@)->Ok_0;
        assert(asked_for(facts, allow_read[i], canonical));
    }
    assert forall|i: int, canonical: Seq<u8>|
        0 <= i < allow_read.len() && #[trigger] asked_for(
            facts,
            allow_read[i],
            canonical,
        ) implies is_under(canonical, spec.project) || exists|k: int|
        0 <= k < spec.read_only.len() && is_under(canonical, #[trigger] spec.read_only[k]) by {
        assert(existing(facts, allow_read[i], "--allow-read path"@)->Ok_0 == canonical);
        assert(is_readable(spec, canonical));
    }
}

/// A path that was asked for is there.
pub open spec fn leads_somewhere(facts: FactsView, p: Seq<u8>) -> bool {
    exists|canonical: Seq<u8>| #[trigger] asked_for(facts, p, canonical)
}

/// A path that was asked for leads to `canonical`.
pub open spec fn asked_for(facts: FactsView, p: Seq<u8>, canonical: Seq<u8>) -> bool {
    canonical_of(facts, p) == Ok::<ReplyOf<Seq<u8>, Seq<char>>, StopView>(ReplyOf::Got(canonical))
}

/// A name of a variable is made of letters, digits and underscores, and does not start
/// with a digit.
pub proof fn law_variable_names(name: Seq<u8>)
    ensures
        is_env_name(name) <==> name.len() > 0 && !('0' as u8 <= name[0] <= '9' as u8) && forall|
            i: int,
        |
            0 <= i < name.len() ==> ('a' as u8 <= #[trigger] name[i] <= 'z' as u8 || 'A' as u8
                <= name[i] <= 'Z' as u8 || '0' as u8 <= name[i] <= '9' as u8 || name[i]
                == '_' as u8),
{
}

} // verus!
