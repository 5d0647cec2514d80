//! No decision asks what it has been told.
//!
//! Whoever answers each question that a decision stops at, and has the decision
//! taken again, is therefore never asked the same thing twice.
use vstd::prelude::*;

use crate::bytes::{bytes_of, split};
use crate::cli::{
    allowed, assembled, existing, existing_dir, home_of, launch, launch_parts, programs,
};
use crate::config::{config_path, policy_at, user_policy};
use crate::env::variable;
use crate::error::MessageView;
use crate::host::{
    bytes_at, canonical_of, config_at, current_dir, entries_of, owner_of, stat_of, text_at,
    FactsView, QuestionOf, QuestionView, ReplyOf, StopOf, StopView,
};
use crate::layout::{
    declared_dir, declared_layout, either_install, executable_layout, first_install, followed_by,
    inferred_layout, is_marked, lexical_layout, marked_from, modules_layout, node_install_at,
    node_install_from, runtime_root, second_install, site_layout, sites_from, user_sites,
    LayoutView, Marker,
};
use crate::mcp::{
    all_servers, argument_layout, arguments_layout, cwd_layout, discovered_layout, discovery,
    omp_config, opencode_config, opencode_layout, python_layout, runtime, server_layout,
    servers_if_file, servers_layout,
};
use crate::path::{ancestors, join};
use crate::preflight::{
    bwrap_usable, fit, lower_present, namespaces_allowed, terminal_safe,
};
use crate::resolve::{absolute_form, executable_at, resolved, searched, COLON};
use crate::servers::{configured_servers, server_label, Schema, ServerView};
use crate::shebang::{interpreter_of, shebang_at, shebang_layout, ShebangView};
use crate::types::LaunchView;

verus! {

/// The host has given an answer of the right kind.
pub open spec fn is_answered(facts: FactsView, question: QuestionView) -> bool {
    match question {
        QuestionOf::Stat(p) => stat_of(facts, p) is Ok,
        QuestionOf::Canonical(p) => canonical_of(facts, p) is Ok,
        QuestionOf::Read(p) => bytes_at(facts, p) is Ok,
        QuestionOf::ReadText(p) => text_at(facts, p) is Ok,
        QuestionOf::List(p) => entries_of(facts, p) is Ok,
        QuestionOf::Owner(p) => owner_of(facts, p) is Ok,
        QuestionOf::Config(p) => config_at(facts, p) is Ok,
        QuestionOf::CurrentDir => current_dir(facts) is Ok,
    }
}

/// If a decision asks, then for what the host has not answered.
pub open spec fn asks_anew<T>(facts: FactsView, r: Result<T, StopView>) -> bool {
    r matches Err(StopOf::Ask(question)) ==> !is_answered(facts, question)
}

proof fn lemma_both_ask_anew(
    facts: FactsView,
    first: Result<LayoutView, StopView>,
    second: Result<LayoutView, StopView>,
)
    requires
        asks_anew(facts, first),
        asks_anew(facts, second),
    ensures
        asks_anew(facts, followed_by(first, second)),
{
}

proof fn lemma_searched_asks(facts: FactsView, command: Seq<u8>, dirs: Seq<Seq<u8>>, i: nat)
    ensures
        asks_anew(facts, searched(facts, command, dirs, i)),
    decreases dirs.len() - i,
{
    if i < dirs.len() {
        lemma_searched_asks(facts, command, dirs, i + 1);
        assert(asks_anew(facts, executable_at(facts, join(dirs[i as int], command))));
        assert(asks_anew(facts, absolute_form(facts, join(dirs[i as int], command))));
    }
}

proof fn lemma_resolved_asks(
    facts: FactsView,
    command: Seq<u8>,
    host_path: Seq<u8>,
    cwd: Option<Seq<u8>>,
)
    ensures
        asks_anew(facts, resolved(facts, command, host_path, cwd)),
{
    lemma_searched_asks(facts, command, split(host_path, seq![COLON]), 0);
}

proof fn lemma_install_asks(facts: FactsView, p: Seq<u8>, i: nat)
    ensures
        asks_anew(facts, node_install_from(facts, p, i)),
    decreases ancestors(p).len() - i,
{
    if i < ancestors(p).len() {
        lemma_install_asks(facts, p, i + 1);
        assert(asks_anew(facts, node_install_at(facts, p, ancestors(p)[i as int])));
    }
}

proof fn lemma_marked_asks(facts: FactsView, p: Seq<u8>, marker: Marker, i: nat)
    ensures
        asks_anew(facts, marked_from(facts, p, marker, i)),
    decreases ancestors(p).len() - i,
{
    if i < ancestors(p).len() {
        lemma_marked_asks(facts, p, marker, i + 1);
        assert(asks_anew(facts, is_marked(facts, ancestors(p)[i as int], marker)));
    }
}

proof fn lemma_root_asks(facts: FactsView, p: Seq<u8>)
    ensures
        asks_anew(facts, runtime_root(facts, p)),
{
    lemma_install_asks(facts, p, 0);
    lemma_marked_asks(facts, p, Marker::Environment, 0);
    lemma_marked_asks(facts, p, Marker::Project, 0);
}

proof fn lemma_executable_asks(
    facts: FactsView,
    lexical: Seq<u8>,
    canonical: Seq<u8>,
    home: Seq<u8>,
)
    ensures
        asks_anew(facts, executable_layout(facts, lexical, canonical, home)),
{
    lemma_install_asks(facts, lexical, 0);
    lemma_install_asks(facts, canonical, 0);
    lemma_root_asks(facts, lexical);
    lemma_root_asks(facts, canonical);
    assert(asks_anew(facts, either_install(facts, lexical, canonical)));
    assert(asks_anew(facts, inferred_layout(facts, lexical, home)));
    assert(asks_anew(facts, inferred_layout(facts, canonical, home)));
    assert(asks_anew(facts, first_install(facts, lexical, canonical, home)));
    assert(asks_anew(facts, second_install(facts, lexical, canonical, home)));
    assert(asks_anew(facts, lexical_layout(lexical, home)));
    assert(asks_anew(facts, modules_layout(canonical, home)));
}

proof fn lemma_declared_asks(facts: FactsView, p: Seq<u8>, home: Seq<u8>, project: Seq<u8>)
    ensures
        asks_anew(facts, declared_layout(facts, p, home, project)),
{
    if let Ok(ReplyOf::Got(canonical)) = canonical_of(facts, p) {
        lemma_root_asks(facts, canonical);
        assert(asks_anew(facts, declared_dir(facts, canonical)));
    }
}

proof fn lemma_sites_ask(
    facts: FactsView,
    entries: Seq<ReplyOf<Seq<u8>, Seq<char>>>,
    i: nat,
)
    ensures
        asks_anew(facts, sites_from(facts, entries, i)),
    decreases entries.len() - i,
{
    if i < entries.len() {
        lemma_sites_ask(facts, entries, i + 1);
        if let ReplyOf::Got(dir) = entries[i as int] {
            assert(asks_anew(facts, site_layout(facts, join(dir, bytes_of("site-packages"@)))));
        }
    }
}

proof fn lemma_user_sites_ask(facts: FactsView, home: Seq<u8>)
    ensures
        asks_anew(facts, user_sites(facts, home)),
{
    if let Ok(Some(entries)) = entries_of(facts, join(home, bytes_of(".local/lib"@))) {
        lemma_sites_ask(facts, entries, 0);
    }
}

proof fn lemma_interpreter_asks(
    facts: FactsView,
    found: ShebangView,
    host_path: Seq<u8>,
    label: MessageView,
)
    ensures
        asks_anew(facts, interpreter_of(facts, found, host_path, label)),
{
    lemma_resolved_asks(facts, found.args[0], host_path, None);
    assert(asks_anew(facts, executable_at(facts, found.interpreter)));
}

proof fn lemma_shebang_asks(
    facts: FactsView,
    script: Seq<u8>,
    host_path: Seq<u8>,
    home: Seq<u8>,
    label: MessageView,
)
    ensures
        asks_anew(facts, shebang_layout(facts, script, host_path, home, label)),
{
    assert(asks_anew(facts, shebang_at(facts, script)));
    if let Ok(Some(found)) = shebang_at(facts, script) {
        lemma_interpreter_asks(facts, found, host_path, label);
        if let Ok(lexical) = interpreter_of(facts, found, host_path, label) {
            if let Ok(ReplyOf::Got(canonical)) = canonical_of(facts, lexical) {
                lemma_executable_asks(facts, lexical, canonical, home);
            }
        }
    }
}

proof fn lemma_arguments_ask(
    facts: FactsView,
    args: Seq<Seq<u8>>,
    label: MessageView,
    home: Seq<u8>,
    project: Seq<u8>,
    host_path: Seq<u8>,
    i: nat,
)
    ensures
        asks_anew(facts, arguments_layout(facts, args, label, home, project, host_path, i)),
    decreases args.len() - i,
{
    if i < args.len() {
        lemma_declared_asks(facts, args[i as int], home, project);
        lemma_shebang_asks(facts, args[i as int], host_path, home, label);
        assert(asks_anew(
            facts,
            argument_layout(facts, args[i as int], label, home, project, host_path),
        ));
        lemma_arguments_ask(facts, args, label, home, project, host_path, i + 1);
    }
}

proof fn lemma_server_asks(
    facts: FactsView,
    server: ServerView,
    home: Seq<u8>,
    project: Seq<u8>,
    host_path: Seq<u8>,
)
    ensures
        asks_anew(facts, server_layout(facts, server, home, project, host_path)),
{
    let label = server_label(server.name, server.source);
    lemma_resolved_asks(facts, server.command, host_path, server.cwd);
    if let Ok(lexical) = resolved(facts, server.command, host_path, server.cwd) {
        if let Ok(ReplyOf::Got(canonical)) = canonical_of(facts, lexical) {
            lemma_executable_asks(facts, lexical, canonical, home);
            lemma_shebang_asks(facts, lexical, host_path, home, label);
            if let Some(dir) = server.cwd {
                lemma_declared_asks(facts, dir, home, project);
            }
            assert(asks_anew(facts, cwd_layout(facts, server.cwd, label, home, project)));
            lemma_arguments_ask(facts, server.args, label, home, project, host_path, 0);
            lemma_user_sites_ask(facts, home);
            assert(asks_anew(facts, python_layout(facts, lexical, canonical, server.args, home)));
        }
    }
}

proof fn lemma_servers_ask(
    facts: FactsView,
    servers: Seq<ServerView>,
    home: Seq<u8>,
    project: Seq<u8>,
    host_path: Seq<u8>,
    i: nat,
)
    ensures
        asks_anew(facts, servers_layout(facts, servers, home, project, host_path, i)),
    decreases servers.len() - i,
{
    if i < servers.len() {
        lemma_server_asks(facts, servers[i as int], home, project, host_path);
        lemma_servers_ask(facts, servers, home, project, host_path, i + 1);
        lemma_both_ask_anew(
            facts,
            server_layout(facts, servers[i as int], home, project, host_path),
            servers_layout(facts, servers, home, project, host_path, i + 1),
        );
    }
}

/// Discovery asks for nothing that it has been told.
pub proof fn law_discovery_asks_anew(
    facts: FactsView,
    home: Seq<u8>,
    project: Seq<u8>,
    host_path: Seq<u8>,
)
    ensures
        asks_anew(facts, discovery(facts, home, project, host_path)),
{
    assert(asks_anew(facts, configured_servers(facts, Schema::Omp, omp_config(home))));
    assert(asks_anew(facts, configured_servers(facts, Schema::OpenCode, opencode_config(home))));
    assert(asks_anew(facts, servers_if_file(facts, Schema::Omp, omp_config(home))));
    assert(asks_anew(facts, servers_if_file(facts, Schema::OpenCode, opencode_config(home))));
    assert(asks_anew(facts, all_servers(facts, home)));
    assert(asks_anew(facts, opencode_layout(facts, home)));
    if let Ok(servers) = all_servers(facts, home) {
        lemma_servers_ask(facts, servers, home, project, host_path, 0);
    }
    assert(asks_anew(facts, discovered_layout(facts, home, project, host_path)));
}

/// The search for a program asks for nothing that it has been told.
pub proof fn law_runtime_asks_anew(
    facts: FactsView,
    command: Seq<u8>,
    host_path: Seq<u8>,
    home: Seq<u8>,
)
    ensures
        asks_anew(facts, runtime(facts, command, host_path, home)),
{
    lemma_resolved_asks(facts, command, host_path, None);
    if let Ok(lexical) = resolved(facts, command, host_path, None) {
        if let Ok(ReplyOf::Got(canonical)) = canonical_of(facts, lexical) {
            let label = seq![crate::error::text("OMP"@)];
            lemma_executable_asks(facts, lexical, canonical, home);
            lemma_shebang_asks(facts, lexical, host_path, home, label);
            lemma_both_ask_anew(
                facts,
                executable_layout(facts, lexical, canonical, home),
                shebang_layout(facts, lexical, host_path, home, label),
            );
        }
    }
}

proof fn lemma_allowed_asks(
    facts: FactsView,
    paths: Seq<Seq<u8>>,
    i: nat,
    before: Seq<Seq<u8>>,
)
    ensures
        asks_anew(facts, allowed(facts, paths, i, before)),
    decreases paths.len() - i,
{
    if i < paths.len() {
        let found = existing(facts, paths[i as int], "--allow-read path"@);
        assert(asks_anew(facts, found));
        if let Ok(canonical) = found {
            lemma_allowed_asks(facts, paths, i + 1, before.push(canonical));
        }
    }
}

proof fn lemma_programs_ask(
    facts: FactsView,
    home: Seq<u8>,
    project: Seq<u8>,
    host_path: Seq<u8>,
)
    ensures
        asks_anew(facts, programs(facts, home, project, host_path)),
{
    lemma_resolved_asks(facts, bytes_of("bwrap"@), host_path, None);
    law_runtime_asks_anew(facts, bytes_of("omp"@), host_path, home);
    law_discovery_asks_anew(facts, home, project, host_path);
}

proof fn lemma_parts_ask(
    facts: FactsView,
    vars: Seq<(Seq<u8>, Seq<u8>)>,
    project: Seq<u8>,
)
    ensures
        asks_anew(facts, launch_parts(facts, vars, project)),
{
    let home = home_of(facts, variable(vars, bytes_of("HOME"@)));
    assert(asks_anew(facts, home));
    let place = existing_dir(facts, project, "project"@);
    assert(asks_anew(facts, place));
    if let Some(host_path) = variable(vars, bytes_of("PATH"@)) {
        if home is Ok && place is Ok {
            lemma_programs_ask(facts, home->Ok_0, place->Ok_0, host_path);
        }
    }
}

/// A launch asks for nothing that it has been told.
pub proof fn law_launch_asks_anew(
    facts: FactsView,
    vars: Seq<(Seq<u8>, Seq<u8>)>,
    project: Seq<u8>,
    allow_read: Seq<Seq<u8>>,
    pass_env: Seq<Seq<u8>>,
)
    ensures
        asks_anew(facts, launch(facts, vars, project, allow_read, pass_env)),
{
    lemma_parts_ask(facts, vars, project);
    if let Ok(parts) = launch_parts(facts, vars, project) {
        lemma_allowed_asks(
            facts,
            allow_read,
            0,
            parts.omp.mount_roots + parts.found.mount_roots,
        );
        assert(asks_anew(facts, owner_of(facts, parts.home)));
        assert(asks_anew(facts, assembled(facts, parts, vars, allow_read, pass_env)));
    }
}

/// The search for the user's policy asks for nothing that it has been told.
pub proof fn law_policy_asks_anew(
    facts: FactsView,
    vars: Seq<(Seq<u8>, Seq<u8>)>,
    home: Seq<u8>,
    project: Seq<u8>,
)
    ensures
        asks_anew(facts, user_policy(facts, vars, home, project)),
{
    if let Ok(config) = config_path(variable(vars, bytes_of("XDG_CONFIG_HOME"@)), home) {
        assert(asks_anew(facts, policy_at(facts, config, project)));
    }
}

/// The check before a run asks for nothing that it has been told.
pub proof fn law_preflight_asks_anew(facts: FactsView, spec: LaunchView)
    ensures
        asks_anew(facts, fit(facts, spec)),
{
    assert(asks_anew(facts, namespaces_allowed(facts)));
    assert(asks_anew(facts, terminal_safe(facts)));
    assert(asks_anew(facts, bwrap_usable(facts, spec.bwrap)));
    assert(asks_anew(facts, lower_present(facts, spec.home)));
}

} // verus!
