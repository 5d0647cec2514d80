//! What OMP and the configured MCP servers need from the host.
use vstd::prelude::*;
use vstd::slice::slice_subrange;
use vstd::string::*;

use crate::bytes::{bytes_equal, bytes_of, text_bytes};
use crate::error::{
    failure, in_context, path, text, word, ErrorView, Message, MessageView, PieceView,
};
use crate::host::{
    canonical_of, entries_of, fail, host_error, host_failure, is_dir, is_file, list_outcome,
    outcome, stop_context, FactsView, HostFacts, ReplyOf, Stop, StopOf, StopView,
};
use crate::layout::{
    add_declared_path, add_python_user_sites, all_narrow, called_python, declared_layout,
    executable_layout, find_executable_layout, followed_by, is_broad, is_python_interpreter,
    join_layouts, law_declared_mounts_are_narrow, law_executable_mounts_are_narrow,
    lemma_after_nothing, lemma_both_narrow, lemma_followed_by_associative, narrow_root, no_layout,
    reject_broad_root, site_layout, sites_from, user_sites, Layout, LayoutView,
};
use crate::path::{file_name, is_absolute, is_under, join, HostPath};
use crate::resolve::{executable_at, resolved};
use crate::roots::{distinct, law_roots_cover, none_nested, roots};
use crate::servers::{
    configured_servers, label_server, parse_omp_config, parse_opencode_config, server_label,
    LocalServer, Schema, ServerView,
};
use crate::shebang::{
    add_shebang_runtime, interpreter_of, is_env, law_interpreter_mounts_are_narrow, shebang_at,
    shebang_layout,
};
use crate::types::{Discovery, DiscoveryView, McpDiscoveryPolicy, Runtime, RuntimeView};
use crate::views::views;

pub use crate::layout::{
    add_executable_layout, find_node_install, infer_runtime_root, is_fnm_transient, is_system_path,
    top_level_node_modules,
};
pub use crate::resolve::resolve_executable;
pub use crate::roots::{dedupe_paths, dedupe_roots};

verus! {

broadcast use crate::views::group_views;

/// A layout found in the context that `message` gives.
pub open spec fn layout_context(message: MessageView, found: Result<LayoutView, StopView>) -> Result<
    LayoutView,
    StopView,
> {
    match found {
        Ok(all) => Ok(all),
        Err(stop) => Err(stop_context(message, stop)),
    }
}

fn with_context(found: Result<Layout, Stop>, message: Message) -> (r: Result<Layout, Stop>)
    ensures
        outcome(r) == layout_context(message@, outcome(found)),
{
    match found {
        Ok(all) => Ok(all),
        Err(stop) => Err(stop.context(message)),
    }
}

/// The path names a Python source file.
pub open spec fn is_python_file(p: Seq<u8>) -> bool {
    match file_name(p) {
        Some(name) => name.len() > 3 && name.skip(name.len() - 3) == bytes_of(".py"@),
        None => false,
    }
}

fn has_python_extension(argument: &Vec<u8>) -> (r: bool)
    ensures
        r == is_python_file(argument@),
{
    match HostPath::from_bytes(argument.as_slice()).file_name() {
        None => false,
        Some(name) => {
            if name.len() <= 3 {
                return false;
            }
            let ending = slice_subrange(name.as_slice(), name.len() - 3, name.len());
            assert(ending@ =~= name@.skip(name@.len() - 3));
            let wanted = text_bytes(".py");
            bytes_equal(ending, wanted.as_slice())
        },
    }
}

pub open spec fn any_python_file(args: Seq<Seq<u8>>) -> bool {
    exists|i: int| 0 <= i < args.len() && is_python_file(#[trigger] args[i])
}

fn has_python_file(args: &Vec<Vec<u8>>) -> (r: bool)
    ensures
        r == any_python_file(views(args@)),
{
    let ghost all = views(args@);
    let mut i: usize = 0;
    while i < args.len()
        invariant
            i <= args.len(),
            all == views(args@),
            forall|j: int| 0 <= j < i ==> !is_python_file(#[trigger] all[j]),
        decreases args.len() - i,
    {
        assert(all[i as int] == args@[i as int]@);
        if has_python_extension(&args[i]) {
            return true;
        }
        i += 1;
    }
    false
}

/// What one argument of a server needs: an absolute path is declared, and may
/// be a script.
pub open spec fn argument_layout(
    facts: FactsView,
    argument: Seq<u8>,
    label: MessageView,
    home: Seq<u8>,
    project: Seq<u8>,
    host_path: Seq<u8>,
) -> Result<LayoutView, StopView> {
    if is_absolute(argument) {
        followed_by(
            layout_context(
                seq![text("invalid path argument "@)].push(path(argument)).push(text(" for "@))
                    + label,
                declared_layout(facts, argument, home, project),
            ),
            shebang_layout(facts, argument, host_path, home, label),
        )
    } else {
        Ok(no_layout())
    }
}

fn add_argument(
    argument: &Vec<u8>,
    label: &Message,
    home: &HostPath,
    project: &HostPath,
    host_path: &[u8],
    host: &HostFacts,
) -> (r: Result<Layout, Stop>)
    ensures
        outcome(r) == argument_layout(host@, argument@, label@, home@, project@, host_path@),
{
    let p = HostPath::from_bytes(argument.as_slice());
    if !p.is_absolute() {
        return Ok(Layout::new());
    }
    join_layouts(
        with_context(
            add_declared_path(&p, home, project, host),
            Message::new("invalid path argument ").path(&p).text(" for ").then_all(label.copy()),
        ),
        add_shebang_runtime(&p, host_path, home, label, host),
    )
}

/// What the arguments of a server need, from the `i`-th on.
pub open spec fn arguments_layout(
    facts: FactsView,
    args: Seq<Seq<u8>>,
    label: MessageView,
    home: Seq<u8>,
    project: Seq<u8>,
    host_path: Seq<u8>,
    i: nat,
) -> Result<LayoutView, StopView>
    decreases args.len() - i,
{
    if i >= args.len() {
        Ok(no_layout())
    } else {
        followed_by(
            argument_layout(facts, args[i as int], label, home, project, host_path),
            arguments_layout(facts, args, label, home, project, host_path, i + 1),
        )
    }
}

fn add_arguments(
    args: &Vec<Vec<u8>>,
    label: &Message,
    home: &HostPath,
    project: &HostPath,
    host_path: &[u8],
    host: &HostFacts,
) -> (r: Result<Layout, Stop>)
    ensures
        outcome(r) == arguments_layout(
            host@,
            views(args@),
            label@,
            home@,
            project@,
            host_path@,
            0,
        ),
{
    let ghost words = views(args@);
    let ghost whole = arguments_layout(host@, words, label@, home@, project@, host_path@, 0);
    let mut all = Layout::new();
    let mut i: usize = 0;
    proof {
        lemma_after_nothing(whole);
    }
    while i < args.len()
        invariant
            i <= args.len(),
            words == views(args@),
            whole == arguments_layout(host@, words, label@, home@, project@, host_path@, 0),
            whole == followed_by(
                Ok(all@),
                arguments_layout(host@, words, label@, home@, project@, host_path@, i as nat),
            ),
        decreases args.len() - i,
    {
        assert(words[i as int] == args@[i as int]@);
        let ghost before = all@;
        match add_argument(&args[i], label, home, project, host_path, host) {
            Err(stop) => {
                return Err(stop);
            },
            Ok(found) => {
                all.extend(found);
                proof {
                    lemma_followed_by_associative(
                        Ok(before),
                        Ok(found@),
                        arguments_layout(
                            host@,
                            words,
                            label@,
                            home@,
                            project@,
                            host_path@,
                            i as nat + 1,
                        ),
                    );
                }
            },
        }
        i += 1;
    }
    proof {
        assert(words.len() == i);
        assert(all@.roots + no_layout().roots =~= all@.roots);
        assert(all@.path_dirs + no_layout().path_dirs =~= all@.path_dirs);
    }
    Ok(all)
}

/// What the working directory of a server needs.
pub open spec fn cwd_layout(
    facts: FactsView,
    cwd: Option<Seq<u8>>,
    label: MessageView,
    home: Seq<u8>,
    project: Seq<u8>,
) -> Result<LayoutView, StopView> {
    match cwd {
        None => Ok(no_layout()),
        Some(dir) => layout_context(
            seq![text("invalid cwd for "@)] + label,
            declared_layout(facts, dir, home, project),
        ),
    }
}

/// The user's Python sites, for an interpreter that is given a source file.
pub open spec fn python_layout(
    facts: FactsView,
    lexical: Seq<u8>,
    canonical: Seq<u8>,
    args: Seq<Seq<u8>>,
    home: Seq<u8>,
) -> Result<LayoutView, StopView> {
    if (called_python(lexical) || called_python(canonical)) && any_python_file(args) {
        user_sites(facts, home)
    } else {
        Ok(no_layout())
    }
}

/// What a server needs: its command and the command's interpreter, its working
/// directory, its arguments, and the user's Python sites if it is written in
/// Python.
pub open spec fn server_layout(
    facts: FactsView,
    server: ServerView,
    home: Seq<u8>,
    project: Seq<u8>,
    host_path: Seq<u8>,
) -> Result<LayoutView, StopView> {
    let label = server_label(server.name, server.source);
    match resolved(facts, server.command, host_path, server.cwd) {
        Err(stop) => Err(stop_context(label.push(text(" cannot resolve its command"@)), stop)),
        Ok(lexical) => match canonical_of(facts, lexical) {
            Err(stop) => Err(stop),
            Ok(ReplyOf::Failed(why)) => fail(
                in_context(
                    label.push(text(" cannot canonicalize command "@)).push(path(lexical)),
                    host_failure(why),
                ),
            ),
            Ok(ReplyOf::Got(canonical)) => followed_by(
                followed_by(
                    followed_by(
                        followed_by(
                            layout_context(
                                seq![text("unsafe runtime inferred for "@)] + label,
                                executable_layout(facts, lexical, canonical, home),
                            ),
                            shebang_layout(facts, lexical, host_path, home, label),
                        ),
                        cwd_layout(facts, server.cwd, label, home, project),
                    ),
                    arguments_layout(facts, server.args, label, home, project, host_path, 0),
                ),
                python_layout(facts, lexical, canonical, server.args, home),
            ),
        },
    }
}

/// Finds what a server needs.
pub fn discover_server(
    server: &LocalServer,
    home: &HostPath,
    project: &HostPath,
    host_path: &[u8],
    host: &HostFacts,
) -> (r: Result<Layout, Stop>)
    ensures
        outcome(r) == server_layout(host@, server@, home@, project@, host_path@),
{
    let label = label_server(&server.name, &server.source);
    let cwd = match &server.cwd {
        Some(dir) => Some(dir),
        None => None,
    };
    let lexical = match resolve_executable(server.command.as_slice(), host_path, cwd, host) {
        Err(stop) => {
            return Err(stop.context(label.text(" cannot resolve its command")));
        },
        Ok(lexical) => lexical,
    };
    let canonical = match host.canonical(&lexical) {
        Err(stop) => {
            return Err(stop);
        },
        Ok(ReplyOf::Failed(why)) => {
            return Err(
                StopOf::Fail(
                    host_error(why).context(
                        label.text(" cannot canonicalize command ").path(&lexical),
                    ),
                ),
            );
        },
        Ok(ReplyOf::Got(canonical)) => canonical,
    };
    let own = with_context(
        find_executable_layout(&lexical, canonical, home, host),
        Message::new("unsafe runtime inferred for ").then_all(label.copy()),
    );
    let interpreter = add_shebang_runtime(&lexical, host_path, home, &label, host);
    let place = match &server.cwd {
        None => Ok(Layout::new()),
        Some(dir) => with_context(
            add_declared_path(dir, home, project, host),
            Message::new("invalid cwd for ").then_all(label.copy()),
        ),
    };
    let arguments = add_arguments(&server.args, &label, home, project, host_path, host);
    let python = if is_python_interpreter(&lexical, canonical) && has_python_file(&server.args) {
        add_python_user_sites(home, host)
    } else {
        Ok(Layout::new())
    };
    join_layouts(
        join_layouts(join_layouts(join_layouts(own, interpreter), place), arguments),
        python,
    )
}

/// What a program that is found by name needs.
pub open spec fn runtime(facts: FactsView, command: Seq<u8>, host_path: Seq<u8>, home: Seq<u8>) -> Result<
    RuntimeView,
    StopView,
> {
    match resolved(facts, command, host_path, None) {
        Err(stop) => Err(
            stop_context(seq![text("cannot resolve executable "@)].push(word(command)), stop),
        ),
        Ok(lexical) => match canonical_of(facts, lexical) {
            Err(stop) => Err(stop),
            Ok(ReplyOf::Failed(why)) => fail(
                in_context(
                    seq![text("cannot canonicalize executable "@)].push(path(lexical)),
                    host_failure(why),
                ),
            ),
            Ok(ReplyOf::Got(canonical)) => match followed_by(
                executable_layout(facts, lexical, canonical, home),
                shebang_layout(facts, lexical, host_path, home, seq![text("OMP"@)]),
            ) {
                Err(stop) => Err(stop),
                Ok(all) => Ok(
                    RuntimeView {
                        lexical_executable: lexical,
                        canonical_executable: canonical,
                        mount_roots: roots(all.roots),
                        path_dirs: distinct(all.path_dirs),
                    },
                ),
            },
        },
    }
}

/// Finds a program by name, and what it needs to run.
pub fn resolve_runtime(command: &[u8], host_path: &[u8], home: &HostPath, host: &HostFacts) -> (r:
    Result<Runtime, Stop>)
    ensures
        outcome(r) == runtime(host@, command@, host_path@, home@),
{
    let lexical = match resolve_executable(command, host_path, None, host) {
        Err(stop) => {
            return Err(stop.context(Message::new("cannot resolve executable ").word(command)));
        },
        Ok(lexical) => lexical,
    };
    let canonical = match host.canonical(&lexical) {
        Err(stop) => {
            return Err(stop);
        },
        Ok(ReplyOf::Failed(why)) => {
            return Err(
                StopOf::Fail(
                    host_error(why).context(
                        Message::new("cannot canonicalize executable ").path(&lexical),
                    ),
                ),
            );
        },
        Ok(ReplyOf::Got(canonical)) => canonical,
    };
    let found = join_layouts(
        find_executable_layout(&lexical, canonical, home, host),
        add_shebang_runtime(&lexical, host_path, home, &Message::new("OMP"), host),
    );
    match found {
        Err(stop) => Err(stop),
        Ok(all) => Ok(
            Runtime {
                lexical_executable: lexical,
                canonical_executable: canonical.copy(),
                mount_roots: dedupe_roots(all.roots),
                path_dirs: dedupe_paths(all.path_dirs),
            },
        ),
    }
}

/// The servers that a configuration file declares, if the file is there.
pub open spec fn servers_if_file(facts: FactsView, schema: Schema, source: Seq<u8>) -> Result<
    Seq<ServerView>,
    StopView,
> {
    match is_file(facts, source) {
        Err(stop) => Err(stop),
        Ok(false) => Ok(Seq::empty()),
        Ok(true) => configured_servers(facts, schema, source),
    }
}

fn find_servers(schema: Schema, source: &HostPath, host: &HostFacts) -> (r: Result<
    Vec<LocalServer>,
    Stop,
>)
    ensures
        list_outcome(r) == servers_if_file(host@, schema, source@),
{
    match host.is_file(source) {
        Err(stop) => Err(stop),
        Ok(false) => {
            let none: Vec<LocalServer> = Vec::new();
            assert(views(none@) =~= Seq::empty());
            Ok(none)
        },
        Ok(true) => match schema {
            Schema::Omp => parse_omp_config(source, host),
            Schema::OpenCode => parse_opencode_config(source, host),
        },
    }
}

pub open spec fn omp_config(home: Seq<u8>) -> Seq<u8> {
    join(home, bytes_of(".omp/agent/mcp.json"@))
}

pub open spec fn opencode_root(home: Seq<u8>) -> Seq<u8> {
    join(home, bytes_of(".config/opencode"@))
}

pub open spec fn opencode_config(home: Seq<u8>) -> Seq<u8> {
    join(opencode_root(home), bytes_of("opencode.json"@))
}

/// All configured servers, those of OMP first.
pub open spec fn all_servers(facts: FactsView, home: Seq<u8>) -> Result<Seq<ServerView>, StopView> {
    match servers_if_file(facts, Schema::Omp, omp_config(home)) {
        Err(stop) => Err(stop),
        Ok(first) => match servers_if_file(facts, Schema::OpenCode, opencode_config(home)) {
            Err(stop) => Err(stop),
            Ok(second) => Ok(first + second),
        },
    }
}

fn find_all_servers(home: &HostPath, host: &HostFacts) -> (r: Result<Vec<LocalServer>, Stop>)
    ensures
        list_outcome(r) == all_servers(host@, home@),
{
    let mut servers = match find_servers(
        Schema::Omp,
        &home.join_text(".omp/agent/mcp.json"),
        host,
    ) {
        Err(stop) => {
            return Err(stop);
        },
        Ok(servers) => servers,
    };
    let source = home.join_text(".config/opencode").join_text("opencode.json");
    match find_servers(Schema::OpenCode, &source, host) {
        Err(stop) => Err(stop),
        Ok(more) => {
            let mut second = more;
            servers.append(&mut second);
            Ok(servers)
        },
    }
}

/// The OpenCode configuration directory, which is mounted as a whole.
pub open spec fn opencode_layout(facts: FactsView, home: Seq<u8>) -> Result<LayoutView, StopView> {
    match is_dir(facts, opencode_root(home)) {
        Err(stop) => Err(stop),
        Ok(false) => Ok(no_layout()),
        Ok(true) => match canonical_of(facts, opencode_root(home)) {
            Err(stop) => Err(stop),
            Ok(ReplyOf::Failed(why)) => fail(
                in_context(
                    seq![text("cannot resolve trusted OpenCode configuration root "@)].push(
                        path(opencode_root(home)),
                    ),
                    host_failure(why),
                ),
            ),
            Ok(ReplyOf::Got(canonical)) => narrow_root(canonical, home),
        },
    }
}

fn add_opencode_root(home: &HostPath, host: &HostFacts) -> (r: Result<Layout, Stop>)
    ensures
        outcome(r) == opencode_layout(host@, home@),
{
    let root = home.join_text(".config/opencode");
    match host.is_dir(&root) {
        Err(stop) => Err(stop),
        Ok(false) => Ok(Layout::new()),
        Ok(true) => match host.canonical(&root) {
            Err(stop) => Err(stop),
            Ok(ReplyOf::Failed(why)) => Err(
                StopOf::Fail(
                    host_error(why).context(
                        Message::new("cannot resolve trusted OpenCode configuration root ").path(
                            &root,
                        ),
                    ),
                ),
            ),
            Ok(ReplyOf::Got(canonical)) => match reject_broad_root(canonical, home) {
                Err(error) => Err(StopOf::Fail(error)),
                Ok(_) => {
                    let mut all = Layout::new();
                    all.roots.push(canonical.copy());
                    Ok(all)
                },
            },
        },
    }
}

/// What the servers need, from the `i`-th on.
pub open spec fn servers_layout(
    facts: FactsView,
    servers: Seq<ServerView>,
    home: Seq<u8>,
    project: Seq<u8>,
    host_path: Seq<u8>,
    i: nat,
) -> Result<LayoutView, StopView>
    decreases servers.len() - i,
{
    if i >= servers.len() {
        Ok(no_layout())
    } else {
        followed_by(
            server_layout(facts, servers[i as int], home, project, host_path),
            servers_layout(facts, servers, home, project, host_path, i + 1),
        )
    }
}

fn discover_servers(
    servers: &Vec<LocalServer>,
    home: &HostPath,
    project: &HostPath,
    host_path: &[u8],
    host: &HostFacts,
) -> (r: Result<Layout, Stop>)
    ensures
        outcome(r) == servers_layout(host@, views(servers@), home@, project@, host_path@, 0),
{
    let ghost listed = views(servers@);
    let ghost whole = servers_layout(host@, listed, home@, project@, host_path@, 0);
    let mut all = Layout::new();
    let mut i: usize = 0;
    proof {
        lemma_after_nothing(whole);
    }
    while i < servers.len()
        invariant
            i <= servers.len(),
            listed == views(servers@),
            whole == servers_layout(host@, listed, home@, project@, host_path@, 0),
            whole == followed_by(
                Ok(all@),
                servers_layout(host@, listed, home@, project@, host_path@, i as nat),
            ),
        decreases servers.len() - i,
    {
        assert(listed[i as int] == servers@[i as int]@);
        let ghost before = all@;
        match discover_server(&servers[i], home, project, host_path, host) {
            Err(stop) => {
                return Err(stop);
            },
            Ok(found) => {
                all.extend(found);
                proof {
                    lemma_followed_by_associative(
                        Ok(before),
                        Ok(found@),
                        servers_layout(host@, listed, home@, project@, host_path@, i as nat + 1),
                    );
                }
            },
        }
        i += 1;
    }
    proof {
        assert(listed.len() == i);
        assert(all@.roots + no_layout().roots =~= all@.roots);
        assert(all@.path_dirs + no_layout().path_dirs =~= all@.path_dirs);
    }
    Ok(all)
}

/// What all configured servers need.
pub open spec fn discovered_layout(
    facts: FactsView,
    home: Seq<u8>,
    project: Seq<u8>,
    host_path: Seq<u8>,
) -> Result<LayoutView, StopView> {
    match all_servers(facts, home) {
        Err(stop) => Err(stop),
        Ok(servers) => followed_by(
            opencode_layout(facts, home),
            servers_layout(facts, servers, home, project, host_path, 0),
        ),
    }
}

/// The mounts and directories that all configured servers need, each once.
pub open spec fn discovery(
    facts: FactsView,
    home: Seq<u8>,
    project: Seq<u8>,
    host_path: Seq<u8>,
) -> Result<DiscoveryView, StopView> {
    match discovered_layout(facts, home, project, host_path) {
        Err(stop) => Err(stop),
        Ok(all) => Ok(
            DiscoveryView {
                mount_roots: roots(all.roots),
                path_dirs: distinct(all.path_dirs),
                warnings: Seq::empty(),
            },
        ),
    }
}

/// Finds what the configured servers need from the host.
pub fn discover_mcp_mounts(
    home: &HostPath,
    project: &HostPath,
    host_path: &[u8],
    host: &HostFacts,
) -> (r: Result<Discovery, Stop>)
    ensures
        outcome(r) == discovery(host@, home@, project@, host_path@),
{
    let servers = match find_all_servers(home, host) {
        Err(stop) => {
            return Err(stop);
        },
        Ok(servers) => servers,
    };
    match join_layouts(
        add_opencode_root(home, host),
        discover_servers(&servers, home, project, host_path, host),
    ) {
        Err(stop) => Err(stop),
        Ok(all) => {
            let warnings: Vec<String> = Vec::new();
            assert(views(warnings@) =~= Seq::empty());
            Ok(
                Discovery {
                    mount_roots: dedupe_roots(all.roots),
                    path_dirs: dedupe_paths(all.path_dirs),
                    warnings,
                },
            )
        },
    }
}

/// Finds what the configured servers need from the host. A server that cannot
/// be found is a failure under either policy, so that there is nothing to warn
/// of.
pub fn discover_mcp_mounts_with_policy(
    home: &HostPath,
    project: &HostPath,
    host_path: &[u8],
    policy: McpDiscoveryPolicy,
    host: &HostFacts,
) -> (r: Result<Discovery, Stop>)
    ensures
        outcome(r) == discovery(host@, home@, project@, host_path@),
{
    discover_mcp_mounts(home, project, host_path, host)
}

/// The path is the canonical form of one of the user's Python sites.
pub open spec fn is_user_site(facts: FactsView, home: Seq<u8>, root: Seq<u8>) -> bool {
    match entries_of(facts, join(home, bytes_of(".local/lib"@))) {
        Ok(Some(entries)) => is_site_of(facts, entries, root),
        _ => false,
    }
}

pub open spec fn is_site_of(
    facts: FactsView,
    entries: Seq<ReplyOf<Seq<u8>, Seq<char>>>,
    root: Seq<u8>,
) -> bool {
    exists|i: int|
        0 <= i < entries.len() && #[trigger] entries[i] is Got && canonical_of(
            facts,
            join(entries[i]->Got_0, bytes_of("site-packages"@)),
        ) == Ok::<ReplyOf<Seq<u8>, Seq<char>>, StopView>(ReplyOf::Got(root))
}

/// Every root is narrow or a Python site of the user's.
pub open spec fn all_sound(
    facts: FactsView,
    found: Result<LayoutView, StopView>,
    home: Seq<u8>,
) -> bool {
    found matches Ok(all) ==> forall|i: int|
        0 <= i < all.roots.len() ==> !is_broad(#[trigger] all.roots[i], home) || is_user_site(
            facts,
            home,
            all.roots[i],
        )
}

proof fn lemma_sites(facts: FactsView, entries: Seq<ReplyOf<Seq<u8>, Seq<char>>>, i: nat)
    requires
        sites_from(facts, entries, i) is Ok,
    ensures
        forall|k: int|
            0 <= k < sites_from(facts, entries, i)->Ok_0.roots.len() ==> is_site_of(
                facts,
                entries,
                #[trigger] sites_from(facts, entries, i)->Ok_0.roots[k],
            ),
    decreases entries.len() - i,
{
    if i < entries.len() {
        let dir = entries[i as int]->Got_0;
        let here = site_layout(facts, join(dir, bytes_of("site-packages"@)))->Ok_0;
        let rest = sites_from(facts, entries, i + 1)->Ok_0;
        lemma_sites(facts, entries, i + 1);
        let all = sites_from(facts, entries, i)->Ok_0;
        assert(all.roots == here.roots + rest.roots);
        assert forall|k: int| 0 <= k < all.roots.len() implies is_site_of(
            facts,
            entries,
            #[trigger] all.roots[k],
        ) by {
            if k < here.roots.len() {
                assert(entries[i as int] is Got);
                assert(all.roots[k] == here.roots[k]);
            } else {
                assert(all.roots[k] == rest.roots[k - here.roots.len()]);
            }
        }
    }
}

proof fn lemma_both_sound(
    facts: FactsView,
    first: Result<LayoutView, StopView>,
    second: Result<LayoutView, StopView>,
    home: Seq<u8>,
)
    requires
        all_sound(facts, first, home),
        all_sound(facts, second, home),
    ensures
        all_sound(facts, followed_by(first, second), home),
{
}

proof fn lemma_arguments_narrow(
    facts: FactsView,
    args: Seq<Seq<u8>>,
    label: MessageView,
    home: Seq<u8>,
    project: Seq<u8>,
    host_path: Seq<u8>,
    i: nat,
)
    ensures
        all_narrow(arguments_layout(facts, args, label, home, project, host_path, i), home),
    decreases args.len() - i,
{
    if i < args.len() {
        let argument = args[i as int];
        law_declared_mounts_are_narrow(facts, argument, home, project);
        law_interpreter_mounts_are_narrow(facts, argument, host_path, home, label);
        let declared = layout_context(
            seq![text("invalid path argument "@)].push(path(argument)).push(text(" for "@))
                + label,
            declared_layout(facts, argument, home, project),
        );
        let script = shebang_layout(facts, argument, host_path, home, label);
        assert(all_narrow(declared, home));
        lemma_both_narrow(declared, script, home);
        lemma_arguments_narrow(facts, args, label, home, project, host_path, i + 1);
        lemma_both_narrow(
            argument_layout(facts, argument, label, home, project, host_path),
            arguments_layout(facts, args, label, home, project, host_path, i + 1),
            home,
        );
    }
}

proof fn lemma_server_sound(
    facts: FactsView,
    server: ServerView,
    home: Seq<u8>,
    project: Seq<u8>,
    host_path: Seq<u8>,
)
    ensures
        all_sound(facts, server_layout(facts, server, home, project, host_path), home),
{
    let label = server_label(server.name, server.source);
    if let Ok(lexical) = resolved(facts, server.command, host_path, server.cwd) {
        if let Ok(ReplyOf::Got(canonical)) = canonical_of(facts, lexical) {
            let own = layout_context(
                seq![text("unsafe runtime inferred for "@)] + label,
                executable_layout(facts, lexical, canonical, home),
            );
            let script = shebang_layout(facts, lexical, host_path, home, label);
            let cwd = cwd_layout(facts, server.cwd, label, home, project);
            let args = arguments_layout(facts, server.args, label, home, project, host_path, 0);
            let python = python_layout(facts, lexical, canonical, server.args, home);
            law_executable_mounts_are_narrow(facts, lexical, canonical, home);
            law_interpreter_mounts_are_narrow(facts, lexical, host_path, home, label);
            if let Some(dir) = server.cwd {
                law_declared_mounts_are_narrow(facts, dir, home, project);
            }
            lemma_arguments_narrow(facts, server.args, label, home, project, host_path, 0);
            if let Ok(Some(entries)) = entries_of(facts, join(home, bytes_of(".local/lib"@))) {
                if sites_from(facts, entries, 0) is Ok {
                    lemma_sites(facts, entries, 0);
                }
            }
            assert(all_sound(facts, own, home));
            assert(all_sound(facts, script, home));
            assert(all_sound(facts, cwd, home));
            assert(all_sound(facts, args, home));
            assert(all_sound(facts, python, home));
            lemma_both_sound(facts, own, script, home);
            lemma_both_sound(facts, followed_by(own, script), cwd, home);
            lemma_both_sound(facts, followed_by(followed_by(own, script), cwd), args, home);
            lemma_both_sound(
                facts,
                followed_by(followed_by(followed_by(own, script), cwd), args),
                python,
                home,
            );
        }
    }
}

proof fn lemma_servers_sound(
    facts: FactsView,
    servers: Seq<ServerView>,
    home: Seq<u8>,
    project: Seq<u8>,
    host_path: Seq<u8>,
    i: nat,
)
    ensures
        all_sound(facts, servers_layout(facts, servers, home, project, host_path, i), home),
    decreases servers.len() - i,
{
    if i < servers.len() {
        lemma_server_sound(facts, servers[i as int], home, project, host_path);
        lemma_servers_sound(facts, servers, home, project, host_path, i + 1);
        lemma_both_sound(
            facts,
            server_layout(facts, servers[i as int], home, project, host_path),
            servers_layout(facts, servers, home, project, host_path, i + 1),
            home,
        );
    }
}

/// No mount that is inferred for the configured servers is the whole file
/// system, all homes, or the user's whole home, unless a Python site of the
/// user's leads there.
pub proof fn law_discovered_mounts_are_narrow(
    facts: FactsView,
    home: Seq<u8>,
    project: Seq<u8>,
    host_path: Seq<u8>,
    found: DiscoveryView,
)
    requires
        discovery(facts, home, project, host_path) == Ok::<DiscoveryView, StopView>(found),
    ensures
        forall|k: int|
            0 <= k < found.mount_roots.len() ==> !is_broad(
                #[trigger] found.mount_roots[k],
                home,
            ) || is_user_site(facts, home, found.mount_roots[k]),
{
    let servers = all_servers(facts, home)->Ok_0;
    let all = discovered_layout(facts, home, project, host_path)->Ok_0;
    lemma_servers_sound(facts, servers, home, project, host_path, 0);
    assert(all_sound(facts, opencode_layout(facts, home), home));
    lemma_both_sound(
        facts,
        opencode_layout(facts, home),
        servers_layout(facts, servers, home, project, host_path, 0),
        home,
    );
    law_roots_cover(all.roots);
    assert forall|k: int| 0 <= k < found.mount_roots.len() implies !is_broad(
        #[trigger] found.mount_roots[k],
        home,
    ) || is_user_site(facts, home, found.mount_roots[k]) by {
        assert(all.roots.contains(found.mount_roots[k]));
        let i = all.roots.index_of(found.mount_roots[k]);
        assert(all.roots[i] == found.mount_roots[k]);
    }
}

/// A program's mounts are narrow; its executable keeps the name by which it was
/// found; and what has to be mounted for either of its paths is.
pub proof fn law_runtime_mounts(
    facts: FactsView,
    command: Seq<u8>,
    host_path: Seq<u8>,
    home: Seq<u8>,
    found: RuntimeView,
)
    requires
        runtime(facts, command, host_path, home) == Ok::<RuntimeView, StopView>(found),
    ensures
        resolved(facts, command, host_path, None) == Ok::<Seq<u8>, StopView>(
            found.lexical_executable,
        ),
        canonical_of(facts, found.lexical_executable) == Ok::<
            ReplyOf<Seq<u8>, Seq<char>>,
            StopView,
        >(ReplyOf::Got(found.canonical_executable)),
        forall|k: int|
            0 <= k < found.mount_roots.len() ==> !is_broad(#[trigger] found.mount_roots[k], home),
        none_nested(found.mount_roots),
        executable_layout(
            facts,
            found.lexical_executable,
            found.canonical_executable,
            home,
        ) matches Ok(own) && forall|i: int|
            0 <= i < own.roots.len() ==> exists|k: int|
                0 <= k < found.mount_roots.len() && is_under(
                    #[trigger] own.roots[i],
                    #[trigger] found.mount_roots[k],
                ),
{
    let lexical = found.lexical_executable;
    let canonical = found.canonical_executable;
    let label = seq![text("OMP"@)];
    let own = executable_layout(facts, lexical, canonical, home);
    let script = shebang_layout(facts, lexical, host_path, home, label);
    law_executable_mounts_are_narrow(facts, lexical, canonical, home);
    law_interpreter_mounts_are_narrow(facts, lexical, host_path, home, label);
    lemma_both_narrow(own, script, home);
    let all = followed_by(own, script)->Ok_0;
    law_roots_cover(all.roots);
    assert forall|k: int| 0 <= k < found.mount_roots.len() implies !is_broad(
        #[trigger] found.mount_roots[k],
        home,
    ) by {
        assert(all.roots.contains(found.mount_roots[k]));
        let i = all.roots.index_of(found.mount_roots[k]);
        assert(all.roots[i] == found.mount_roots[k]);
    }
    assert forall|i: int| 0 <= i < own->Ok_0.roots.len() implies exists|k: int|
        0 <= k < found.mount_roots.len() && is_under(
            #[trigger] own->Ok_0.roots[i],
            #[trigger] found.mount_roots[k],
        ) by {
        assert(all.roots[i] == own->Ok_0.roots[i]);
        let k = choose|k: int|
            0 <= k < roots(all.roots).len() && is_under(
                all.roots[i],
                #[trigger] roots(all.roots)[k],
            );
        assert(is_under(own->Ok_0.roots[i], found.mount_roots[k]));
    }
}

/// The outermost message of a failure holds `label` from its `k`-th piece on.
pub open spec fn mentioned_at(error: ErrorView, label: MessageView, k: int) -> bool {
    &&& error.len() > 0
    &&& 0 <= k
    &&& k + label.len() <= error[0].len()
    &&& error[0].subrange(k, k + label.len()) == label
}

/// The outermost message of a failure holds `label`.
pub open spec fn mentions(error: ErrorView, label: MessageView) -> bool {
    exists|k: int| #[trigger] mentioned_at(error, label, k)
}

/// A failure over an interpreter that a script names and that was found: its
/// canonical path, or what would have to be mounted for it.
pub open spec fn is_interpreter_trouble(
    facts: FactsView,
    script: Seq<u8>,
    host_path: Seq<u8>,
    home: Seq<u8>,
    label: MessageView,
    error: ErrorView,
) -> bool {
    &&& shebang_layout(facts, script, host_path, home, label) == Err::<LayoutView, StopView>(
        StopOf::Fail(error),
    )
    &&& shebang_at(facts, script) matches Ok(Some(found)) && interpreter_of(
        facts,
        found,
        host_path,
        label,
    ) is Ok
}

/// A failure names the server and the file that declares it, or it is over an
/// interpreter that was found or over the user's Python sites.
pub open spec fn is_accounted_for(
    facts: FactsView,
    server: ServerView,
    home: Seq<u8>,
    host_path: Seq<u8>,
    error: ErrorView,
) -> bool {
    let label = server_label(server.name, server.source);
    ||| mentions(error, label)
    ||| user_sites(facts, home) == Err::<LayoutView, StopView>(StopOf::Fail(error))
    ||| exists|script: Seq<u8>| #[trigger]
        is_interpreter_trouble(facts, script, host_path, home, label, error)
}

proof fn lemma_mentioned(
    front: MessageView,
    label: MessageView,
    back: MessageView,
    cause: ErrorView,
)
    ensures
        mentions(in_context(front + label + back, cause), label),
{
    let error = in_context(front + label + back, cause);
    assert(error[0] == front + label + back);
    assert(error[0].subrange(front.len() as int, (front.len() + label.len()) as int) =~= label);
    assert(mentioned_at(error, label, front.len() as int));
}

proof fn lemma_script_failure(
    facts: FactsView,
    script: Seq<u8>,
    host_path: Seq<u8>,
    home: Seq<u8>,
    label: MessageView,
    error: ErrorView,
)
    requires
        shebang_layout(facts, script, host_path, home, label) == Err::<LayoutView, StopView>(
            StopOf::Fail(error),
        ),
    ensures
        mentions(error, label) || is_interpreter_trouble(
            facts,
            script,
            host_path,
            home,
            label,
            error,
        ),
{
    let none = Seq::<PieceView>::empty();
    match shebang_at(facts, script) {
        Err(StopOf::Fail(cause)) => {
            let back = seq![text(": "@)].push(path(script));
            lemma_mentioned(seq![text("cannot inspect shebang for "@)], label, back, cause);
            assert(seq![text("cannot inspect shebang for "@)] + label + back =~= (
            seq![text("cannot inspect shebang for "@)] + label).push(text(": "@)).push(
                path(script),
            ));
        },
        Ok(Some(found)) => {
            let unresolved = label.push(text(" has unresolved shebang interpreter "@));
            if interpreter_of(facts, found, host_path, label) is Err {
                if is_env(found.interpreter) {
                    if found.args.len() == 0 {
                        let back = seq![text(" has an env shebang without an interpreter"@)];
                        lemma_mentioned(none, label, back, Seq::empty());
                        assert(none + label + back =~= label.push(
                            text(" has an env shebang without an interpreter"@),
                        ));
                        assert(in_context(none + label + back, Seq::empty()) =~= failure(
                            none + label + back,
                        ));
                    } else {
                        let cause = resolved(
                            facts,
                            found.args[0],
                            host_path,
                            None,
                        )->Err_0->Fail_0;
                        let back = seq![text(" has unresolved shebang interpreter "@)].push(
                            word(found.args[0]),
                        );
                        lemma_mentioned(none, label, back, cause);
                        assert(none + label + back =~= unresolved.push(word(found.args[0])));
                    }
                } else {
                    let cause = executable_at(facts, found.interpreter)->Err_0->Fail_0;
                    let back = seq![text(" has unresolved shebang interpreter "@)].push(
                        path(found.interpreter),
                    );
                    lemma_mentioned(none, label, back, cause);
                    assert(none + label + back =~= unresolved.push(path(found.interpreter)));
                }
            }
        },
        _ => {},
    }
}

proof fn lemma_arguments_failure(
    facts: FactsView,
    args: Seq<Seq<u8>>,
    label: MessageView,
    home: Seq<u8>,
    project: Seq<u8>,
    host_path: Seq<u8>,
    i: nat,
    error: ErrorView,
)
    requires
        arguments_layout(facts, args, label, home, project, host_path, i) == Err::<
            LayoutView,
            StopView,
        >(StopOf::Fail(error)),
    ensures
        mentions(error, label) || exists|script: Seq<u8>| #[trigger]
            is_interpreter_trouble(facts, script, host_path, home, label, error),
    decreases args.len() - i,
{
    let argument = args[i as int];
    if argument_layout(facts, argument, label, home, project, host_path) is Err {
        let front = seq![text("invalid path argument "@)].push(path(argument)).push(
            text(" for "@),
        );
        if let Err(StopOf::Fail(cause)) = declared_layout(facts, argument, home, project) {
            lemma_mentioned(front, label, Seq::empty(), cause);
            assert(front + label + Seq::empty() =~= front + label);
        } else {
            lemma_script_failure(facts, argument, host_path, home, label, error);
        }
    } else {
        lemma_arguments_failure(facts, args, label, home, project, host_path, i + 1, error);
    }
}

proof fn lemma_server_failure(
    facts: FactsView,
    server: ServerView,
    home: Seq<u8>,
    project: Seq<u8>,
    host_path: Seq<u8>,
    error: ErrorView,
)
    requires
        server_layout(facts, server, home, project, host_path) == Err::<LayoutView, StopView>(
            StopOf::Fail(error),
        ),
    ensures
        is_accounted_for(facts, server, home, host_path, error),
{
    let label = server_label(server.name, server.source);
    let none = Seq::<PieceView>::empty();
    match resolved(facts, server.command, host_path, server.cwd) {
        Err(stop) => {
            let back = seq![text(" cannot resolve its command"@)];
            lemma_mentioned(none, label, back, stop->Fail_0);
            assert(none + label + back =~= label.push(text(" cannot resolve its command"@)));
        },
        Ok(lexical) => match canonical_of(facts, lexical) {
            Ok(ReplyOf::Failed(why)) => {
                let back = seq![text(" cannot canonicalize command "@)].push(path(lexical));
                lemma_mentioned(none, label, back, host_failure(why));
                assert(none + label + back =~= label.push(
                    text(" cannot canonicalize command "@),
                ).push(path(lexical)));
            },
            Ok(ReplyOf::Got(canonical)) => {
                let front = seq![text("unsafe runtime inferred for "@)];
                let script = shebang_layout(facts, lexical, host_path, home, label);
                let args = arguments_layout(facts, server.args, label, home, project, host_path, 0);
                match executable_layout(facts, lexical, canonical, home) {
                    Err(stop) => {
                        lemma_mentioned(front, label, none, stop->Fail_0);
                        assert(front + label + none =~= front + label);
                    },
                    Ok(_) => if script is Err {
                        lemma_script_failure(facts, lexical, host_path, home, label, error);
                    } else if cwd_layout(facts, server.cwd, label, home, project) is Err {
                        let place = seq![text("invalid cwd for "@)];
                        let dir = server.cwd->Some_0;
                        let cause = declared_layout(facts, dir, home, project)->Err_0->Fail_0;
                        lemma_mentioned(place, label, none, cause);
                        assert(place + label + none =~= place + label);
                    } else if args is Err {
                        lemma_arguments_failure(
                            facts,
                            server.args,
                            label,
                            home,
                            project,
                            host_path,
                            0,
                            error,
                        );
                    },
                }
            },
            _ => {},
        },
    }
}

proof fn lemma_servers_failure(
    facts: FactsView,
    servers: Seq<ServerView>,
    home: Seq<u8>,
    project: Seq<u8>,
    host_path: Seq<u8>,
    i: nat,
    error: ErrorView,
) -> (k: int)
    requires
        servers_layout(facts, servers, home, project, host_path, i) == Err::<LayoutView, StopView>(
            StopOf::Fail(error),
        ),
    ensures
        i <= k < servers.len(),
        server_layout(facts, servers[k], home, project, host_path) == Err::<LayoutView, StopView>(
            StopOf::Fail(error),
        ),
    decreases servers.len() - i,
{
    if server_layout(facts, servers[i as int], home, project, host_path) is Err {
        i as int
    } else {
        lemma_servers_failure(facts, servers, home, project, host_path, i + 1, error)
    }
}

/// A failure over a server names the server and the file that declares it, but
/// for one over an interpreter that was found and one over the user's Python
/// sites.
pub proof fn law_failures_name_their_server(
    facts: FactsView,
    servers: Seq<ServerView>,
    home: Seq<u8>,
    project: Seq<u8>,
    host_path: Seq<u8>,
    error: ErrorView,
)
    requires
        servers_layout(facts, servers, home, project, host_path, 0) == Err::<LayoutView, StopView>(
            StopOf::Fail(error),
        ),
    ensures
        exists|k: int|
            0 <= k < servers.len() && is_accounted_for(
                facts,
                #[trigger] servers[k],
                home,
                host_path,
                error,
            ),
{
    let k = lemma_servers_failure(facts, servers, home, project, host_path, 0, error);
    lemma_server_failure(facts, servers[k], home, project, host_path, error);
    assert(is_accounted_for(facts, servers[k], home, host_path, error));
}

} // verus!
