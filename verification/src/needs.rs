//! What has to be mounted, and on the search path, for a program to run: said of
//! the files that the host has, whatever way it is found by.
use vstd::prelude::*;
use vstd::string::*;
use vstd::utf8::valid_utf8;

use crate::bytes::bytes_of;
use crate::cli::lists;
use crate::error::{failure, path, text, ErrorView, MessageView};
use crate::host::{
    bytes_at, canonical_of, entries_of, host_failure, is_dir, is_file, is_present, FactsView,
    ReplyOf, StopOf, StopView,
};
use crate::layout::{
    and_found, broad_failure, called_python, declared_dir, declared_layout, either_install,
    executable_layout, first_install, followed_by, found_layout, inferred_layout, is_broad,
    law_executable_mounts_are_narrow, lexical_layout, marked_from, modules_layout, no_layout,
    node_install, node_install_from, outermost_modules, runtime_root, second_install, site_layout,
    sites_from, top_modules, LayoutView, Marker,
};
use crate::mcp::{
    all_servers, any_python_file, argument_layout, arguments_layout, cwd_layout, discovered_layout,
    discovery, is_python_file, omp_config, opencode_config, opencode_layout, opencode_root,
    python_layout, runtime, server_layout, servers_if_file, servers_layout,
};
use crate::path::{
    ancestors, components, file_name, is_absolute, is_under, join, lemma_parent_shorter,
    lemma_under_ancestors, lemma_under_itself, lemma_under_parent, lemma_under_transitive, parent,
    ComponentOf,
};
use crate::resolve::{executable_at, resolved};
use crate::roots::{
    distinct, law_distinct_paths, law_roots_cover, none_nested, roots, strictly_ordered,
};
use crate::servers::{configured_servers, server_label, Schema, ServerView};
use crate::shebang::{
    first_line_words, interpreter_of, is_env, is_script, past_options, shebang, shebang_layout,
    BANG, HASH,
};
use crate::types::{DiscoveryView, RuntimeView};

verus! {

/// The path lies at or below one of the roots.
pub open spec fn covered(roots: Seq<Seq<u8>>, p: Seq<u8>) -> bool {
    exists|k: int| 0 <= k < roots.len() && is_under(p, #[trigger] roots[k])
}

/// The first of the directories that holds something is `dir`.
pub open spec fn innermost(
    tree: Seq<Seq<u8>>,
    holds: spec_fn(Seq<u8>) -> bool,
    dir: Seq<u8>,
) -> bool {
    exists|i: int|
        0 <= i < tree.len() && #[trigger] tree[i] == dir && holds(dir) && forall|j: int|
            0 <= j < i ==> !holds(#[trigger] tree[j])
}

/// None of the directories holds it.
pub open spec fn nowhere(tree: Seq<Seq<u8>>, holds: spec_fn(Seq<u8>) -> bool) -> bool {
    forall|i: int| 0 <= i < tree.len() ==> !holds(#[trigger] tree[i])
}

/// The directory holds a file of that name.
pub open spec fn holds_file(facts: FactsView, dir: Seq<u8>, name: Seq<char>) -> bool {
    is_file(facts, join(dir, bytes_of(name))) == Ok::<bool, StopView>(true)
}

/// The directory is a Node installation, and the path is one of its programs or
/// modules.
pub open spec fn node_around(facts: FactsView, p: Seq<u8>) -> spec_fn(Seq<u8>) -> bool {
    |dir: Seq<u8>|
        {
            &&& holds_file(facts, dir, "bin/node"@)
            &&& is_dir(facts, join(dir, bytes_of("lib/node_modules"@))) == Ok::<bool, StopView>(
                true,
            )
            &&& is_under(p, join(dir, bytes_of("bin"@))) || is_under(
                p,
                join(dir, bytes_of("lib/node_modules"@)),
            )
        }
}

/// The directory is a Python environment.
pub open spec fn python_in(facts: FactsView) -> spec_fn(Seq<u8>) -> bool {
    |dir: Seq<u8>| holds_file(facts, dir, "pyvenv.cfg"@)
}

/// The directory is a Python or Node project.
pub open spec fn project_in(facts: FactsView) -> spec_fn(Seq<u8>) -> bool {
    |dir: Seq<u8>|
        holds_file(facts, dir, "pyproject.toml"@) || holds_file(facts, dir, "package.json"@)
}

/// The root of what a path belongs to: the innermost Node installation around it;
/// without one, the innermost Python environment; without one, the innermost
/// project; without one, the directory it is in.
pub open spec fn belongs_to(facts: FactsView, p: Seq<u8>, root: Seq<u8>) -> bool {
    let tree = ancestors(p);
    if !nowhere(tree, node_around(facts, p)) {
        innermost(tree, node_around(facts, p), root)
    } else if !nowhere(tree, python_in(facts)) {
        innermost(tree, python_in(facts), root)
    } else if !nowhere(tree, project_in(facts)) {
        innermost(tree, project_in(facts), root)
    } else {
        parent(p) == Some(root)
    }
}

proof fn lemma_one_innermost(
    tree: Seq<Seq<u8>>,
    holds: spec_fn(Seq<u8>) -> bool,
    a: Seq<u8>,
    b: Seq<u8>,
)
    requires
        innermost(tree, holds, a),
        innermost(tree, holds, b),
    ensures
        a == b,
{
    let i = choose|i: int|
        0 <= i < tree.len() && #[trigger] tree[i] == a && holds(a) && forall|j: int|
            0 <= j < i ==> !holds(#[trigger] tree[j]);
    let k = choose|k: int|
        0 <= k < tree.len() && #[trigger] tree[k] == b && holds(b) && forall|j: int|
            0 <= j < k ==> !holds(#[trigger] tree[j]);
    if i < k {
        assert(!holds(tree[i]));
    } else if k < i {
        assert(!holds(tree[k]));
    }
}

proof fn lemma_one_root(facts: FactsView, p: Seq<u8>, a: Seq<u8>, b: Seq<u8>)
    requires
        belongs_to(facts, p, a),
        belongs_to(facts, p, b),
    ensures
        a == b,
{
    let tree = ancestors(p);
    if !nowhere(tree, node_around(facts, p)) {
        lemma_one_innermost(tree, node_around(facts, p), a, b);
    } else if !nowhere(tree, python_in(facts)) {
        lemma_one_innermost(tree, python_in(facts), a, b);
    } else if !nowhere(tree, project_in(facts)) {
        lemma_one_innermost(tree, project_in(facts), a, b);
    }
}

proof fn lemma_node_install(facts: FactsView, p: Seq<u8>, i: nat)
    requires
        node_install_from(facts, p, i) is Ok,
        forall|j: int| 0 <= j < i && j < ancestors(p).len() ==> !node_around(facts, p)(#[trigger] ancestors(p)[j]),
    ensures
        match node_install_from(facts, p, i) {
            Ok(Some(root)) => innermost(ancestors(p), node_around(facts, p), root),
            Ok(None) => nowhere(ancestors(p), node_around(facts, p)),
            Err(_) => true,
        },
    decreases ancestors(p).len() - i,
{
    if i < ancestors(p).len() {
        let dir = ancestors(p)[i as int];
        if node_around(facts, p)(dir) {
            assert(innermost(ancestors(p), node_around(facts, p), dir));
        } else {
            lemma_node_install(facts, p, i + 1);
        }
    }
}

proof fn lemma_marked(facts: FactsView, p: Seq<u8>, marker: Marker, i: nat)
    requires
        marked_from(facts, p, marker, i) is Ok,
        forall|j: int| 0 <= j < i && j < ancestors(p).len() ==> !sign(facts, marker)(#[trigger] ancestors(p)[j]),
    ensures
        match marked_from(facts, p, marker, i) {
            Ok(Some(root)) => innermost(ancestors(p), sign(facts, marker), root),
            Ok(None) => nowhere(ancestors(p), sign(facts, marker)),
            Err(_) => true,
        },
    decreases ancestors(p).len() - i,
{
    if i < ancestors(p).len() {
        let dir = ancestors(p)[i as int];
        if sign(facts, marker)(dir) {
            assert(innermost(ancestors(p), sign(facts, marker), dir));
        } else {
            lemma_marked(facts, p, marker, i + 1);
        }
    }
}

spec fn sign(facts: FactsView, marker: Marker) -> spec_fn(Seq<u8>) -> bool {
    match marker {
        Marker::Environment => python_in(facts),
        Marker::Project => project_in(facts),
    }
}

/// The root that is inferred for a path is the one that the path belongs to, and
/// the path lies below it. A path without one is the top of its tree.
pub proof fn law_runtime_root(facts: FactsView, p: Seq<u8>)
    ensures
        match runtime_root(facts, p) {
            Ok(Some(root)) => belongs_to(facts, p, root) && is_under(p, root),
            Ok(None) => parent(p) is None && forall|root: Seq<u8>| !#[trigger]
                belongs_to(facts, p, root),
            Err(_) => true,
        },
{
    let tree = ancestors(p);
    lemma_under_ancestors(p);
    if let Ok(found) = node_install(facts, p) {
        lemma_node_install(facts, p, 0);
        if found is None {
            if let Ok(found) = marked_from(facts, p, Marker::Environment, 0) {
                lemma_marked(facts, p, Marker::Environment, 0);
                if found is None {
                    if let Ok(found) = marked_from(facts, p, Marker::Project, 0) {
                        lemma_marked(facts, p, Marker::Project, 0);
                        if found is None && parent(p) is Some {
                            lemma_under_parent(p);
                        }
                    }
                }
            }
        }
    }
}

proof fn lemma_node_install_asks(facts: FactsView, p: Seq<u8>, i: nat)
    ensures
        node_install_from(facts, p, i) matches Err(stop) ==> stop is Ask,
    decreases ancestors(p).len() - i,
{
    if i < ancestors(p).len() {
        lemma_node_install_asks(facts, p, i + 1);
    }
}

proof fn lemma_marked_asks(facts: FactsView, p: Seq<u8>, marker: Marker, i: nat)
    ensures
        marked_from(facts, p, marker, i) matches Err(stop) ==> stop is Ask,
    decreases ancestors(p).len() - i,
{
    if i < ancestors(p).len() {
        lemma_marked_asks(facts, p, marker, i + 1);
    }
}

/// The search for the root of a path never fails: it only ever lacks an answer.
pub proof fn law_runtime_root_is_owed(facts: FactsView, p: Seq<u8>)
    ensures
        runtime_root(facts, p) matches Err(stop) ==> stop is Ask,
        node_install(facts, p) matches Err(stop) ==> stop is Ask,
{
    lemma_node_install_asks(facts, p, 0);
    lemma_marked_asks(facts, p, Marker::Environment, 0);
    lemma_marked_asks(facts, p, Marker::Project, 0);
}

/// The path is one of the system's programs or libraries.
pub open spec fn is_systems(p: Seq<u8>) -> bool {
    ||| is_under(p, bytes_of("/usr"@))
    ||| is_under(p, bytes_of("/bin"@))
    ||| is_under(p, bytes_of("/lib"@))
    ||| is_under(p, bytes_of("/lib64"@))
}

/// `dir` is where a program is found, which is neither the system's nor there for
/// one shell session only.
pub open spec fn lies_in(lexical: Seq<u8>, dir: Seq<u8>) -> bool {
    &&& parent(lexical) == Some(dir)
    &&& !components(lexical).contains(ComponentOf::Normal(bytes_of("fnm_multishells"@)))
    &&& !is_systems(lexical)
}

/// `root` holds the Node installation of a program: the one around the file that it
/// leads to, or else the one around where it is found.
pub open spec fn node_of(
    facts: FactsView,
    lexical: Seq<u8>,
    canonical: Seq<u8>,
    root: Seq<u8>,
) -> bool {
    ||| innermost(ancestors(canonical), node_around(facts, canonical), root)
    ||| nowhere(ancestors(canonical), node_around(facts, canonical)) && innermost(
        ancestors(lexical),
        node_around(facts, lexical),
        root,
    )
}

/// No Node installation is around a program.
pub open spec fn without_node(facts: FactsView, lexical: Seq<u8>, canonical: Seq<u8>) -> bool {
    &&& nowhere(ancestors(canonical), node_around(facts, canonical))
    &&& nowhere(ancestors(lexical), node_around(facts, lexical))
}

/// A program that is found at `lexical` and leads to `canonical` needs `root`: its
/// own directory; its Node installation; without one, the roots that its two paths
/// belong to, unless they are the system's; and the modules around it.
pub open spec fn calls_for(
    facts: FactsView,
    lexical: Seq<u8>,
    canonical: Seq<u8>,
    root: Seq<u8>,
) -> bool {
    ||| lies_in(lexical, root)
    ||| node_of(facts, lexical, canonical, root)
    ||| without_node(facts, lexical, canonical) && !is_systems(lexical) && belongs_to(
        facts,
        lexical,
        root,
    )
    ||| without_node(facts, lexical, canonical) && !is_systems(canonical) && belongs_to(
        facts,
        canonical,
        root,
    )
    ||| ancestors(canonical).contains(root) && file_name(root) == Some(bytes_of("node_modules"@))
}

/// A program that is found at `lexical` and leads to `canonical` needs `dir` on the
/// search path: its own directory, and the programs of its Node installation.
pub open spec fn calls_for_dir(
    facts: FactsView,
    lexical: Seq<u8>,
    canonical: Seq<u8>,
    dir: Seq<u8>,
) -> bool {
    ||| lies_in(lexical, dir)
    ||| exists|root: Seq<u8>| #[trigger]
        node_of(facts, lexical, canonical, root) && dir == join(root, bytes_of("bin"@))
}

/// The root is the whole file system, all homes, or the whole home of the user.
pub open spec fn is_too_wide(root: Seq<u8>, home: Seq<u8>) -> bool {
    ||| components(root) == components(bytes_of("/"@))
    ||| components(root) == components(bytes_of("/home"@))
    ||| components(root) == components(home)
}

/// What is said of a root that is too wide.
pub open spec fn too_wide_failure(root: Seq<u8>) -> ErrorView {
    failure(
        seq![
            text("refusing inferred broad mount "@),
            path(root),
            text("; use --allow-read with a narrower path"@),
        ],
    )
}

pub proof fn lemma_covered_by_more(roots: Seq<Seq<u8>>, more: Seq<Seq<u8>>, p: Seq<u8>)
    requires
        covered(roots, p),
        forall|i: int| 0 <= i < roots.len() ==> covered(more, #[trigger] roots[i]),
    ensures
        covered(more, p),
{
    let k = choose|k: int| 0 <= k < roots.len() && is_under(p, #[trigger] roots[k]);
    let n = choose|n: int| 0 <= n < more.len() && is_under(roots[k], #[trigger] more[n]);
    lemma_under_transitive(p, roots[k], more[n]);
}

proof fn lemma_listed_by_more(dirs: Seq<Seq<u8>>, more: Seq<Seq<u8>>, p: Seq<u8>)
    requires
        lists(dirs, p),
        forall|i: int| 0 <= i < dirs.len() ==> lists(more, #[trigger] dirs[i]),
    ensures
        lists(more, p),
{
    let k = choose|k: int| 0 <= k < dirs.len() && components(#[trigger] dirs[k]) == components(p);
    let n = choose|n: int|
        0 <= n < more.len() && components(#[trigger] more[n]) == components(dirs[k]);
    assert(components(more[n]) == components(p));
}

/// The outermost of the directories covers all of them that go by its name.
proof fn lemma_modules(p: Seq<u8>, n: nat)
    requires
        n <= ancestors(p).len(),
    ensures
        match outermost_modules(ancestors(p), n) {
            None => forall|i: int|
                0 <= i < n ==> file_name(#[trigger] ancestors(p)[i]) != Some(
                    bytes_of("node_modules"@),
                ),
            Some(dir) => exists|k: int|
                0 <= k < n && #[trigger] ancestors(p)[k] == dir && file_name(dir) == Some(
                    bytes_of("node_modules"@),
                ) && forall|i: int|
                    k < i < n ==> file_name(#[trigger] ancestors(p)[i]) != Some(
                        bytes_of("node_modules"@),
                    ),
        },
    decreases n,
{
    if n > 0 {
        let m = (n - 1) as nat;
        if file_name(ancestors(p)[n - 1]) == Some(bytes_of("node_modules"@)) {
            assert(ancestors(p)[n - 1] == ancestors(p)[n - 1]);
        } else {
            lemma_modules(p, m);
            if let Some(dir) = outermost_modules(ancestors(p), n) {
                let k = choose|k: int|
                    0 <= k < m && #[trigger] ancestors(p)[k] == dir && file_name(dir) == Some(
                        bytes_of("node_modules"@),
                    ) && forall|i: int|
                        k < i < m ==> file_name(#[trigger] ancestors(p)[i]) != Some(
                            bytes_of("node_modules"@),
                        );
                assert(ancestors(p)[k] == dir);
            }
        }
    }
}

proof fn lemma_ancestors_nest(p: Seq<u8>, i: int, k: int)
    requires
        0 <= i <= k < ancestors(p).len(),
    ensures
        is_under(ancestors(p)[i], ancestors(p)[k]),
    decreases p.len(),
{
    if i == 0 {
        lemma_under_ancestors(p);
    } else {
        let above = parent(p)->0;
        lemma_parent_shorter(p);
        lemma_ancestors_nest(above, i - 1, k - 1);
        assert(ancestors(p)[i] == ancestors(above)[i - 1]);
        assert(ancestors(p)[k] == ancestors(above)[k - 1]);
    }
}

/// A layout with another one behind it, in parts.
proof fn lemma_parts(
    facts: FactsView,
    lexical: Seq<u8>,
    canonical: Seq<u8>,
    home: Seq<u8>,
    found: LayoutView,
)
    requires
        executable_layout(facts, lexical, canonical, home) == Ok::<LayoutView, StopView>(found),
    ensures
        lexical_layout(lexical, home) is Ok,
        first_install(facts, lexical, canonical, home) is Ok,
        second_install(facts, lexical, canonical, home) is Ok,
        modules_layout(canonical, home) is Ok,
        ({
            let own = lexical_layout(lexical, home)->Ok_0;
            let first = first_install(facts, lexical, canonical, home)->Ok_0;
            let second = second_install(facts, lexical, canonical, home)->Ok_0;
            let modules = modules_layout(canonical, home)->Ok_0;
            &&& forall|r: Seq<u8>| #[trigger]
                found.roots.contains(r) <==> own.roots.contains(r) || first.roots.contains(r)
                    || second.roots.contains(r) || modules.roots.contains(r)
            &&& forall|d: Seq<u8>| #[trigger]
                found.path_dirs.contains(d) <==> own.path_dirs.contains(d)
                    || first.path_dirs.contains(d)
        }),
{
    let own = lexical_layout(lexical, home)->Ok_0;
    let first = first_install(facts, lexical, canonical, home)->Ok_0;
    let second = second_install(facts, lexical, canonical, home)->Ok_0;
    let modules = modules_layout(canonical, home)->Ok_0;
    lemma_joined(own.roots, first.roots);
    lemma_joined(own.roots + first.roots, second.roots);
    lemma_joined(own.roots + first.roots + second.roots, modules.roots);
    lemma_joined(own.path_dirs, first.path_dirs);
    lemma_joined(own.path_dirs + first.path_dirs, second.path_dirs);
    lemma_joined(own.path_dirs + first.path_dirs + second.path_dirs, modules.path_dirs);
    assert(second.path_dirs =~= Seq::empty());
    assert(modules.path_dirs =~= Seq::empty());
}

/// What two lists hold together.
pub proof fn lemma_joined(a: Seq<Seq<u8>>, b: Seq<Seq<u8>>)
    ensures
        forall|x: Seq<u8>| #[trigger] (a + b).contains(x) <==> a.contains(x) || b.contains(x),
{
    assert forall|x: Seq<u8>| #[trigger] (a + b).contains(x) <==> a.contains(x) || b.contains(
        x,
    ) by {
        if (a + b).contains(x) {
            let k = (a + b).index_of(x);
            if k < a.len() {
                assert(a[k] == x);
            } else {
                assert(b[k - a.len()] == x);
            }
        }
        if a.contains(x) {
            assert((a + b)[a.index_of(x)] == x);
        }
        if b.contains(x) {
            assert((a + b)[a.len() + b.index_of(x)] == x);
        }
    }
}

proof fn lemma_held(roots: Seq<Seq<u8>>, p: Seq<u8>)
    requires
        roots.contains(p),
    ensures
        covered(roots, p),
        lists(roots, p),
{
    let k = roots.index_of(p);
    lemma_under_itself(p);
    assert(is_under(p, roots[k]));
    assert(components(roots[k]) == components(p));
}

proof fn lemma_node_of(facts: FactsView, lexical: Seq<u8>, canonical: Seq<u8>)
    ensures
        match either_install(facts, lexical, canonical) {
            Err(stop) => stop is Ask,
            Ok(Some(root)) => node_of(facts, lexical, canonical, root) && forall|other: Seq<u8>|
                #[trigger]
                node_of(facts, lexical, canonical, other) ==> other == root,
            Ok(None) => without_node(facts, lexical, canonical) && forall|other: Seq<u8>|
                !#[trigger] node_of(facts, lexical, canonical, other),
        },
{
    law_runtime_root_is_owed(facts, canonical);
    law_runtime_root_is_owed(facts, lexical);
    if node_install(facts, canonical) is Ok {
        lemma_node_install(facts, canonical, 0);
    }
    if node_install(facts, lexical) is Ok {
        lemma_node_install(facts, lexical, 0);
    }
    if let Ok(Some(root)) = either_install(facts, lexical, canonical) {
        assert forall|other: Seq<u8>| #[trigger]
            node_of(facts, lexical, canonical, other) implies other == root by {
            if node_install(facts, canonical) == Ok::<Option<Seq<u8>>, StopView>(Some(root)) {
                lemma_one_innermost(
                    ancestors(canonical),
                    node_around(facts, canonical),
                    root,
                    other,
                );
            } else {
                lemma_one_innermost(ancestors(lexical), node_around(facts, lexical), root, other);
            }
        }
    }
}

/// What is found for a program is what it needs, on disk and on the search path,
/// and no more.
#[verifier::spinoff_prover]
#[verifier::rlimit(40)]
pub proof fn law_executable_is_provided(
    facts: FactsView,
    lexical: Seq<u8>,
    canonical: Seq<u8>,
    home: Seq<u8>,
    found: LayoutView,
)
    requires
        executable_layout(facts, lexical, canonical, home) == Ok::<LayoutView, StopView>(found),
    ensures
        forall|root: Seq<u8>| #[trigger]
            calls_for(facts, lexical, canonical, root) ==> covered(found.roots, root),
        forall|dir: Seq<u8>| #[trigger]
            calls_for_dir(facts, lexical, canonical, dir) ==> lists(found.path_dirs, dir),
        forall|root: Seq<u8>| #[trigger]
            found.roots.contains(root) ==> calls_for(facts, lexical, canonical, root)
                && !is_too_wide(root, home),
        forall|dir: Seq<u8>| #[trigger]
            found.path_dirs.contains(dir) ==> calls_for_dir(facts, lexical, canonical, dir),
{
    let own = lexical_layout(lexical, home)->Ok_0;
    let first = first_install(facts, lexical, canonical, home)->Ok_0;
    let second = second_install(facts, lexical, canonical, home)->Ok_0;
    let modules = modules_layout(canonical, home)->Ok_0;
    lemma_parts(facts, lexical, canonical, home, found);
    lemma_node_of(facts, lexical, canonical);
    law_executable_mounts_are_narrow(facts, lexical, canonical, home);
    lemma_modules(canonical, ancestors(canonical).len());
    let either = either_install(facts, lexical, canonical)->Ok_0;
    assert forall|root: Seq<u8>| #[trigger]
        calls_for(facts, lexical, canonical, root) implies covered(found.roots, root) by {
        if lies_in(lexical, root) {
            assert(own.roots[0] == root);
            assert(own.roots.contains(root));
            lemma_held(found.roots, root);
        } else if node_of(facts, lexical, canonical, root) {
            assert(first.roots[0] == root);
            assert(first.roots.contains(root));
            lemma_held(found.roots, root);
        } else if ancestors(canonical).contains(root) && file_name(root) == Some(
            bytes_of("node_modules"@),
        ) {
            let i = ancestors(canonical).index_of(root);
            let dir = top_modules(canonical)->0;
            let k = choose|k: int|
                0 <= k < ancestors(canonical).len() && #[trigger] ancestors(canonical)[k] == dir
                    && file_name(dir) == Some(bytes_of("node_modules"@)) && forall|j: int|
                    k < j < ancestors(canonical).len() ==> file_name(
                        #[trigger] ancestors(canonical)[j],
                    ) != Some(bytes_of("node_modules"@));
            lemma_ancestors_nest(canonical, i, k);
            assert(modules.roots[0] == dir);
            assert(modules.roots.contains(dir));
            assert(found.roots.contains(dir));
            assert(is_under(root, found.roots[found.roots.index_of(dir)]));
        } else {
            assert(either is None);
            lemma_inferred(facts, lexical, home, first, found.roots);
            lemma_inferred(facts, canonical, home, second, found.roots);
        }
    }
    assert forall|dir: Seq<u8>| #[trigger]
        calls_for_dir(facts, lexical, canonical, dir) implies lists(found.path_dirs, dir) by {
        if lies_in(lexical, dir) {
            assert(own.path_dirs[0] == dir);
            assert(own.path_dirs.contains(dir));
        } else {
            assert(first.path_dirs[0] == dir);
            assert(first.path_dirs.contains(dir));
        }
        lemma_held(found.path_dirs, dir);
    }
    assert forall|root: Seq<u8>| #[trigger] found.roots.contains(root) implies calls_for(
        facts,
        lexical,
        canonical,
        root,
    ) && !is_too_wide(root, home) by {
        assert(!is_broad(found.roots[found.roots.index_of(root)], home));
        if own.roots.contains(root) {
            assert(own.roots[own.roots.index_of(root)] == root);
            assert(lies_in(lexical, root));
        } else if modules.roots.contains(root) {
            assert(modules.roots[modules.roots.index_of(root)] == root);
            assert(ancestors(canonical).contains(root));
        } else if first.roots.contains(root) {
            assert(first.roots[first.roots.index_of(root)] == root);
            if either is None {
                law_runtime_root(facts, lexical);
            }
        } else {
            assert(second.roots[second.roots.index_of(root)] == root);
            law_runtime_root(facts, canonical);
        }
    }
    assert forall|dir: Seq<u8>| #[trigger] found.path_dirs.contains(dir) implies calls_for_dir(
        facts,
        lexical,
        canonical,
        dir,
    ) by {
        if own.path_dirs.contains(dir) {
            assert(own.path_dirs[own.path_dirs.index_of(dir)] == dir);
            assert(lies_in(lexical, dir));
        } else {
            assert(first.path_dirs[first.path_dirs.index_of(dir)] == dir);
            assert(node_of(facts, lexical, canonical, either->Some_0));
        }
    }
}

proof fn lemma_broad_failure(root: Seq<u8>)
    ensures
        broad_failure(root) == too_wide_failure(root),
{
    assert(seq![text("refusing inferred broad mount "@)].push(path(root)).push(
        text("; use --allow-read with a narrower path"@),
    ) =~= seq![
        text("refusing inferred broad mount "@),
        path(root),
        text("; use --allow-read with a narrower path"@),
    ]);
}

/// A program is refused only over a root that it needs and that is too wide.
pub proof fn law_executable_is_owed(
    facts: FactsView,
    lexical: Seq<u8>,
    canonical: Seq<u8>,
    home: Seq<u8>,
    error: ErrorView,
)
    requires
        executable_layout(facts, lexical, canonical, home) == Err::<LayoutView, StopView>(
            StopOf::Fail(error),
        ),
    ensures
        exists|root: Seq<u8>| #[trigger]
            calls_for(facts, lexical, canonical, root) && is_too_wide(root, home) && error
                == too_wide_failure(root),
{
    lemma_node_of(facts, lexical, canonical);
    law_runtime_root_is_owed(facts, lexical);
    law_runtime_root_is_owed(facts, canonical);
    lemma_modules(canonical, ancestors(canonical).len());
    let either = either_install(facts, lexical, canonical);
    let root = if lexical_layout(lexical, home) is Err {
        parent(lexical)->0
    } else if first_install(facts, lexical, canonical, home) is Err {
        if let Ok(Some(root)) = either {
            root
        } else {
            runtime_root(facts, lexical)->Ok_0->Some_0
        }
    } else if second_install(facts, lexical, canonical, home) is Err {
        runtime_root(facts, canonical)->Ok_0->Some_0
    } else {
        top_modules(canonical)->0
    };
    if either == Ok::<Option<Seq<u8>>, StopView>(None) {
        law_runtime_root(facts, lexical);
        law_runtime_root(facts, canonical);
    }
    lemma_broad_failure(root);
    assert(calls_for(facts, lexical, canonical, root));
}

/// The root that a path belongs to is among what is inferred for it.
proof fn lemma_inferred(
    facts: FactsView,
    p: Seq<u8>,
    home: Seq<u8>,
    part: LayoutView,
    roots: Seq<Seq<u8>>,
)
    requires
        inferred_layout(facts, p, home) == Ok::<LayoutView, StopView>(part),
        forall|r: Seq<u8>| part.roots.contains(r) ==> #[trigger] roots.contains(r),
    ensures
        !is_systems(p) ==> forall|root: Seq<u8>| #[trigger]
            belongs_to(facts, p, root) ==> covered(roots, root),
{
    if !is_systems(p) {
        law_runtime_root(facts, p);
        assert forall|root: Seq<u8>| #[trigger] belongs_to(facts, p, root) implies covered(
            roots,
            root,
        ) by {
            let inferred = runtime_root(facts, p)->Ok_0;
            if inferred is Some {
                lemma_one_root(facts, p, root, inferred->Some_0);
                assert(part.roots[0] == root);
                assert(part.roots.contains(root));
                lemma_held(roots, root);
            }
        }
    }
}

/// A path that a server declares leads to `canonical`.
pub open spec fn leads_to(facts: FactsView, p: Seq<u8>, canonical: Seq<u8>) -> bool {
    canonical_of(facts, p) == Ok::<ReplyOf<Seq<u8>, Seq<char>>, StopView>(ReplyOf::Got(canonical))
}

/// The root that a path stands for: the one that it belongs to, or the path itself
/// where there is nothing above it.
pub open spec fn stands_for(facts: FactsView, canonical: Seq<u8>, root: Seq<u8>) -> bool {
    if parent(canonical) is None {
        root == canonical
    } else {
        belongs_to(facts, canonical, root)
    }
}

/// A path that a server declares needs `root`: the one that it stands for, unless it
/// is the project's.
pub open spec fn declares_root(
    facts: FactsView,
    p: Seq<u8>,
    project: Seq<u8>,
    root: Seq<u8>,
) -> bool {
    exists|canonical: Seq<u8>| #[trigger]
        leads_to(facts, p, canonical) && !is_under(canonical, project) && stands_for(
            facts,
            canonical,
            root,
        )
}

proof fn lemma_top_stands(facts: FactsView, canonical: Seq<u8>, root: Seq<u8>)
    requires
        parent(canonical) is None,
        belongs_to(facts, canonical, root),
    ensures
        root == canonical,
{
    assert(ancestors(canonical) =~= seq![canonical]);
}

/// What is found for a declared path is the root that it stands for, so that the
/// path itself lies in the project or in what is found; and a path that is taken is
/// there.
pub proof fn law_declared_is_provided(
    facts: FactsView,
    p: Seq<u8>,
    home: Seq<u8>,
    project: Seq<u8>,
    found: LayoutView,
)
    requires
        declared_layout(facts, p, home, project) == Ok::<LayoutView, StopView>(found),
    ensures
        forall|root: Seq<u8>| #[trigger]
            found.roots.contains(root) <==> declares_root(facts, p, project, root),
        forall|root: Seq<u8>| #[trigger]
            found.roots.contains(root) ==> !is_too_wide(root, home),
        found.path_dirs == Seq::<Seq<u8>>::empty(),
        is_present(facts, p) == Ok::<bool, StopView>(true),
        exists|canonical: Seq<u8>| #[trigger]
            leads_to(facts, p, canonical) && (is_under(canonical, project) || covered(
                found.roots,
                canonical,
            )),
{
    let canonical = canonical_of(facts, p)->Ok_0->Got_0;
    assert(leads_to(facts, p, canonical));
    if is_under(canonical, project) {
        assert(found.roots =~= Seq::empty());
    } else {
        law_runtime_root(facts, canonical);
        let root = match runtime_root(facts, canonical)->Ok_0 {
            Some(root) => root,
            None => canonical,
        };
        lemma_under_itself(canonical);
        if runtime_root(facts, canonical)->Ok_0 is None {
            lemma_slash_is_wide(home);
        } else if parent(canonical) is None {
            lemma_top_stands(facts, canonical, root);
        }
        assert(stands_for(facts, canonical, root));
        assert(found.roots =~= seq![root]);
        assert forall|other: Seq<u8>| #[trigger] found.roots.contains(other) <==> declares_root(
            facts,
            p,
            project,
            other,
        ) by {
            if found.roots.contains(other) {
                assert(other == root);
                assert(leads_to(facts, p, canonical));
            }
            if declares_root(facts, p, project, other) {
                if parent(canonical) is Some {
                    lemma_one_root(facts, canonical, root, other);
                }
                assert(found.roots[0] == other);
            }
        }
        assert(is_under(canonical, found.roots[0]));
    }
}

proof fn lemma_slash_is_wide(home: Seq<u8>)
    ensures
        is_broad(bytes_of("/"@), home),
{
}

/// A declared path is refused where it is not there, where it leads nowhere, or
/// where the root that it stands for is too wide.
pub proof fn law_declared_is_owed(
    facts: FactsView,
    p: Seq<u8>,
    home: Seq<u8>,
    project: Seq<u8>,
    error: ErrorView,
)
    requires
        declared_layout(facts, p, home, project) == Err::<LayoutView, StopView>(
            StopOf::Fail(error),
        ),
    ensures
        ({
            ||| is_present(facts, p) == Ok::<bool, StopView>(false) && error == failure(
                seq![text("configured path "@), path(p), text(" does not exist"@)],
            )
            ||| canonical_of(facts, p) matches Ok(ReplyOf::Failed(why)) && error == host_failure(
                why,
            )
            ||| exists|root: Seq<u8>|
                is_too_wide(root, home) && error == #[trigger] too_wide_failure(root) && (
                declares_root(facts, p, project, root) || (root == bytes_of("/"@)
                    && top_of_nothing(facts, p, project)))
        }),
{
    if is_present(facts, p) == Ok::<bool, StopView>(false) {
        assert(seq![text("configured path "@)].push(path(p)).push(text(" does not exist"@))
            =~= seq![text("configured path "@), path(p), text(" does not exist"@)]);
    } else if let Ok(ReplyOf::Got(canonical)) = canonical_of(facts, p) {
        assert(leads_to(facts, p, canonical));
        law_runtime_root(facts, canonical);
        law_runtime_root_is_owed(facts, canonical);
        let root = match runtime_root(facts, canonical)->Ok_0 {
            Some(root) => root,
            None => declared_dir(facts, canonical)->Ok_0,
        };
        if runtime_root(facts, canonical)->Ok_0 is Some && parent(canonical) is None {
            lemma_top_stands(facts, canonical, root);
        }
        lemma_broad_failure(root);
        assert(error == too_wide_failure(root));
    }
}

/// A declared path leads to something with nothing above it that is no directory.
pub open spec fn top_of_nothing(facts: FactsView, p: Seq<u8>, project: Seq<u8>) -> bool {
    exists|canonical: Seq<u8>| #[trigger]
        leads_to(facts, p, canonical) && !is_under(canonical, project) && parent(canonical) is None
            && is_dir(facts, canonical) == Ok::<bool, StopView>(false)
}

/// A word is an option.
pub open spec fn is_option(word: Seq<u8>) -> bool {
    word.len() > 0 && word[0] == 0x2d
}

/// The file at `p` holds a script that starts with `#!`.
pub open spec fn holds_script(facts: FactsView, p: Seq<u8>, bytes: Seq<u8>) -> bool {
    &&& is_file(facts, p) == Ok::<bool, StopView>(true)
    &&& bytes_at(facts, p) == Ok::<ReplyOf<Seq<u8>, Seq<char>>, StopView>(ReplyOf::Got(bytes))
    &&& bytes.len() >= 2 && bytes[0] == 0x23 && bytes[1] == 0x21
}

/// A script whose first line has these words is run by the program at `lexical`:
/// the first word, or, where that is `env`, the first word after it that is no
/// option, looked up on the search path.
pub open spec fn runs_by(
    facts: FactsView,
    words: Seq<Seq<u8>>,
    host_path: Seq<u8>,
    lexical: Seq<u8>,
) -> bool {
    &&& words.len() > 0
    &&& is_absolute(words[0])
    &&& if components(words[0]) == components(bytes_of("/usr/bin/env"@)) {
        exists|k: int|
            1 <= k < words.len() && !is_option(#[trigger] words[k]) && resolved(
                facts,
                words[k],
                host_path,
                None,
            ) == Ok::<Seq<u8>, StopView>(lexical) && forall|j: int|
                1 <= j < k ==> is_option(#[trigger] words[j])
    } else {
        lexical == words[0] && executable_at(facts, lexical) is Ok
    }
}

/// The file at `p` is a script that is run by the program at `lexical`, which leads
/// to `canonical`.
pub open spec fn interpreted_by(
    facts: FactsView,
    p: Seq<u8>,
    host_path: Seq<u8>,
    lexical: Seq<u8>,
    canonical: Seq<u8>,
) -> bool {
    &&& exists|bytes: Seq<u8>| #[trigger]
        holds_script(facts, p, bytes) && runs_by(
            facts,
            first_line_words(bytes),
            host_path,
            lexical,
        )
    &&& leads_to(facts, lexical, canonical)
}

proof fn lemma_past_options(args: Seq<Seq<u8>>) -> (k: int)
    ensures
        0 <= k <= args.len(),
        past_options(args) == args.skip(k),
        k < args.len() ==> !is_option(args[k]),
        forall|j: int| 0 <= j < k ==> is_option(#[trigger] args[j]),
    decreases args.len(),
{
    if args.len() > 0 && is_option(args[0]) {
        let rest = args.drop_first();
        let k = lemma_past_options(rest);
        assert(rest.skip(k) =~= args.skip(k + 1));
        assert forall|j: int| 0 <= j < k + 1 implies is_option(#[trigger] args[j]) by {
            if j > 0 {
                assert(rest[j - 1] == args[j]);
            }
        }
        k + 1
    } else {
        assert(args.skip(0) =~= args);
        0
    }
}

proof fn lemma_script(bytes: Seq<u8>)
    ensures
        is_script(bytes) <==> bytes.len() >= 2 && bytes[0] == 0x23 && bytes[1] == 0x21,
{
    let mark = seq![HASH, BANG];
    if is_script(bytes) {
        assert(mark[0] == bytes[0] && mark[1] == bytes[1]);
    }
    if bytes.len() >= 2 && bytes[0] == 0x23 && bytes[1] == 0x21 {
        assert(mark =~= bytes.subrange(0, 2));
    }
}

/// A script with an interpreter is given what that program is given; nothing is
/// found for any other file.
pub proof fn lemma_shebang(
    facts: FactsView,
    script: Seq<u8>,
    host_path: Seq<u8>,
    home: Seq<u8>,
    label: MessageView,
)
    ensures
        forall|lexical: Seq<u8>, canonical: Seq<u8>| #[trigger]
            interpreted_by(facts, script, host_path, lexical, canonical) ==> shebang_layout(
                facts,
                script,
                host_path,
                home,
                label,
            ) == executable_layout(facts, lexical, canonical, home),
        shebang_layout(facts, script, host_path, home, label) matches Ok(found) ==> found
            == no_layout() || exists|lexical: Seq<u8>, canonical: Seq<u8>| #[trigger]
            interpreted_by(facts, script, host_path, lexical, canonical),
        shebang_layout(facts, script, host_path, home, label) is Ok && (exists|bytes: Seq<u8>|
            #[trigger]
            holds_script(facts, script, bytes)) ==> exists|lexical: Seq<u8>, canonical: Seq<u8>|
            #[trigger]
            interpreted_by(facts, script, host_path, lexical, canonical),
{
    let made = shebang_layout(facts, script, host_path, home, label);
    if is_file(facts, script) == Ok::<bool, StopView>(true) {
        if let Ok(ReplyOf::Got(bytes)) = bytes_at(facts, script) {
            lemma_script(bytes);
            let words = first_line_words(bytes);
            let rest = words.drop_first();
            let k = lemma_past_options(rest);
            assert forall|lexical: Seq<u8>, canonical: Seq<u8>| #[trigger]
                interpreted_by(facts, script, host_path, lexical, canonical) implies made
                == executable_layout(facts, lexical, canonical, home) by {
                lemma_runs(facts, words, host_path, lexical);
            }
            if made is Ok && is_script(bytes) {
                assert(holds_script(facts, script, bytes));
                let found = shebang(script, bytes)->Ok_0->Some_0;
                let lexical = interpreter_of(facts, found, host_path, label)->Ok_0;
                let canonical = canonical_of(facts, lexical)->Ok_0->Got_0;
                if is_env(words[0]) {
                    assert(rest.skip(k)[0] == words[k + 1]);
                    assert forall|j: int| 1 <= j < k + 1 implies is_option(#[trigger] words[j]) by {
                        assert(rest[j - 1] == words[j]);
                    }
                    assert(!is_option(words[k + 1]));
                }
                assert(runs_by(facts, words, host_path, lexical));
                assert(interpreted_by(facts, script, host_path, lexical, canonical));
            }
        }
    }
}

/// The program that runs a script is the one that is looked for.
proof fn lemma_runs(
    facts: FactsView,
    words: Seq<Seq<u8>>,
    host_path: Seq<u8>,
    lexical: Seq<u8>,
)
    requires
        runs_by(facts, words, host_path, lexical),
    ensures
        is_env(words[0]) ==> past_options(words.drop_first()).len() > 0 && resolved(
            facts,
            past_options(words.drop_first())[0],
            host_path,
            None,
        ) == Ok::<Seq<u8>, StopView>(lexical),
        !is_env(words[0]) ==> lexical == words[0] && executable_at(facts, lexical) is Ok,
{
    if is_env(words[0]) {
        let rest = words.drop_first();
        let n = lemma_past_options(rest);
        let k = choose|k: int|
            1 <= k < words.len() && !is_option(#[trigger] words[k]) && resolved(
                facts,
                words[k],
                host_path,
                None,
            ) == Ok::<Seq<u8>, StopView>(lexical) && forall|j: int|
                1 <= j < k ==> is_option(#[trigger] words[j]);
        assert(rest[k - 1] == words[k]);
        if n < k - 1 {
            assert(rest[n] == words[n + 1]);
        }
        assert(n == k - 1);
        assert(rest.skip(n)[0] == words[k]);
    }
}

/// The interpreter of the script at `p` needs `root`.
pub open spec fn script_calls_for(
    facts: FactsView,
    p: Seq<u8>,
    host_path: Seq<u8>,
    root: Seq<u8>,
) -> bool {
    exists|lexical: Seq<u8>, canonical: Seq<u8>| #[trigger]
        interpreted_by(facts, p, host_path, lexical, canonical) && calls_for(
            facts,
            lexical,
            canonical,
            root,
        )
}

/// The interpreter of the script at `p` needs `dir` on the search path.
pub open spec fn script_calls_for_dir(
    facts: FactsView,
    p: Seq<u8>,
    host_path: Seq<u8>,
    dir: Seq<u8>,
) -> bool {
    exists|lexical: Seq<u8>, canonical: Seq<u8>| #[trigger]
        interpreted_by(facts, p, host_path, lexical, canonical) && calls_for_dir(
            facts,
            lexical,
            canonical,
            dir,
        )
}

/// A file that is a script has an interpreter.
pub open spec fn has_interpreter(facts: FactsView, p: Seq<u8>, host_path: Seq<u8>) -> bool {
    (exists|bytes: Seq<u8>| #[trigger] holds_script(facts, p, bytes)) ==> exists|
        lexical: Seq<u8>,
        canonical: Seq<u8>,
    | #[trigger]
        interpreted_by(facts, p, host_path, lexical, canonical)
}

/// What is found for a script is what its interpreter needs, on disk and on the
/// search path, and no more; and a script that is taken has an interpreter.
pub proof fn law_script_is_provided(
    facts: FactsView,
    script: Seq<u8>,
    host_path: Seq<u8>,
    home: Seq<u8>,
    label: MessageView,
    found: LayoutView,
)
    requires
        shebang_layout(facts, script, host_path, home, label) == Ok::<LayoutView, StopView>(found),
    ensures
        forall|root: Seq<u8>| #[trigger]
            script_calls_for(facts, script, host_path, root) ==> covered(found.roots, root),
        forall|dir: Seq<u8>| #[trigger]
            script_calls_for_dir(facts, script, host_path, dir) ==> lists(found.path_dirs, dir),
        forall|root: Seq<u8>| #[trigger]
            found.roots.contains(root) ==> script_calls_for(facts, script, host_path, root)
                && !is_too_wide(root, home),
        forall|dir: Seq<u8>| #[trigger]
            found.path_dirs.contains(dir) ==> script_calls_for_dir(facts, script, host_path, dir),
        has_interpreter(facts, script, host_path),
{
    lemma_shebang(facts, script, host_path, home, label);
    if exists|lexical: Seq<u8>, canonical: Seq<u8>| #[trigger]
        interpreted_by(facts, script, host_path, lexical, canonical) {
        let (lexical, canonical) = choose|lexical: Seq<u8>, canonical: Seq<u8>| #[trigger]
            interpreted_by(facts, script, host_path, lexical, canonical);
        law_executable_is_provided(facts, lexical, canonical, home, found);
        assert forall|root: Seq<u8>| #[trigger]
            script_calls_for(facts, script, host_path, root) implies covered(
            found.roots,
            root,
        ) by {
            let (l, c) = choose|l: Seq<u8>, c: Seq<u8>| #[trigger]
                interpreted_by(facts, script, host_path, l, c) && calls_for(facts, l, c, root);
            law_executable_is_provided(facts, l, c, home, found);
        }
        assert forall|dir: Seq<u8>| #[trigger]
            script_calls_for_dir(facts, script, host_path, dir) implies lists(
            found.path_dirs,
            dir,
        ) by {
            let (l, c) = choose|l: Seq<u8>, c: Seq<u8>| #[trigger]
                interpreted_by(facts, script, host_path, l, c) && calls_for_dir(facts, l, c, dir);
            law_executable_is_provided(facts, l, c, home, found);
        }
        assert forall|root: Seq<u8>| #[trigger] found.roots.contains(root) implies script_calls_for(
            facts,
            script,
            host_path,
            root,
        ) && !is_too_wide(root, home) by {
            assert(interpreted_by(facts, script, host_path, lexical, canonical));
        }
        assert forall|dir: Seq<u8>| #[trigger]
            found.path_dirs.contains(dir) implies script_calls_for_dir(
            facts,
            script,
            host_path,
            dir,
        ) by {
            assert(interpreted_by(facts, script, host_path, lexical, canonical));
        }
    } else {
        assert(found == no_layout());
    }
}

/// A script is refused where it cannot be read, where no interpreter is found for
/// it, or over a root that its interpreter needs and that is too wide.
pub open spec fn script_in_trouble(
    facts: FactsView,
    p: Seq<u8>,
    host_path: Seq<u8>,
    home: Seq<u8>,
) -> bool {
    &&& is_file(facts, p) == Ok::<bool, StopView>(true)
    &&& {
        ||| bytes_at(facts, p) matches Ok(ReplyOf::Failed(_))
        ||| !has_interpreter(facts, p, host_path)
        ||| exists|root: Seq<u8>| #[trigger]
            script_calls_for(facts, p, host_path, root) && is_too_wide(root, home)
    }
}

pub proof fn law_script_is_owed(
    facts: FactsView,
    script: Seq<u8>,
    host_path: Seq<u8>,
    home: Seq<u8>,
    label: MessageView,
    error: ErrorView,
)
    requires
        shebang_layout(facts, script, host_path, home, label) == Err::<LayoutView, StopView>(
            StopOf::Fail(error),
        ),
    ensures
        script_in_trouble(facts, script, host_path, home),
{
    lemma_shebang(facts, script, host_path, home, label);
    if let Ok(ReplyOf::Got(bytes)) = bytes_at(facts, script) {
        lemma_script(bytes);
        assert(holds_script(facts, script, bytes));
        if has_interpreter(facts, script, host_path) {
            let (lexical, canonical) = choose|lexical: Seq<u8>, canonical: Seq<u8>| #[trigger]
                interpreted_by(facts, script, host_path, lexical, canonical);
            law_executable_is_owed(facts, lexical, canonical, home, error);
            let root = choose|root: Seq<u8>| #[trigger]
                calls_for(facts, lexical, canonical, root) && is_too_wide(root, home) && error
                    == too_wide_failure(root);
            assert(script_calls_for(facts, script, host_path, root));
        }
    }
}

/// Two layouts, one after the other, hold what each of them holds.
proof fn lemma_followed(
    first: Result<LayoutView, StopView>,
    second: Result<LayoutView, StopView>,
    found: LayoutView,
)
    requires
        followed_by(first, second) == Ok::<LayoutView, StopView>(found),
    ensures
        first is Ok,
        second is Ok,
        forall|r: Seq<u8>| #[trigger]
            found.roots.contains(r) <==> first->Ok_0.roots.contains(r)
                || second->Ok_0.roots.contains(r),
        forall|d: Seq<u8>| #[trigger]
            found.path_dirs.contains(d) <==> first->Ok_0.path_dirs.contains(d)
                || second->Ok_0.path_dirs.contains(d),
        forall|p: Seq<u8>| #[trigger]
            covered(first->Ok_0.roots, p) ==> covered(found.roots, p),
        forall|p: Seq<u8>| #[trigger]
            covered(second->Ok_0.roots, p) ==> covered(found.roots, p),
        forall|d: Seq<u8>| #[trigger]
            lists(first->Ok_0.path_dirs, d) ==> lists(found.path_dirs, d),
        forall|d: Seq<u8>| #[trigger]
            lists(second->Ok_0.path_dirs, d) ==> lists(found.path_dirs, d),
{
    let a = first->Ok_0;
    let b = second->Ok_0;
    lemma_joined(a.roots, b.roots);
    lemma_joined(a.path_dirs, b.path_dirs);
    assert forall|p: Seq<u8>| #[trigger] covered(a.roots, p) implies covered(found.roots, p) by {
        lemma_covered_by_part(a.roots, found.roots, p);
    }
    assert forall|p: Seq<u8>| #[trigger] covered(b.roots, p) implies covered(found.roots, p) by {
        lemma_covered_by_part(b.roots, found.roots, p);
    }
    assert forall|d: Seq<u8>| #[trigger] lists(a.path_dirs, d) implies lists(
        found.path_dirs,
        d,
    ) by {
        lemma_listed_by_part(a.path_dirs, found.path_dirs, d);
    }
    assert forall|d: Seq<u8>| #[trigger] lists(b.path_dirs, d) implies lists(
        found.path_dirs,
        d,
    ) by {
        lemma_listed_by_part(b.path_dirs, found.path_dirs, d);
    }
}

proof fn lemma_covered_by_part(part: Seq<Seq<u8>>, all: Seq<Seq<u8>>, p: Seq<u8>)
    requires
        covered(part, p),
        forall|r: Seq<u8>| part.contains(r) ==> #[trigger] all.contains(r),
    ensures
        covered(all, p),
{
    let k = choose|k: int| 0 <= k < part.len() && is_under(p, #[trigger] part[k]);
    assert(part.contains(part[k]));
    assert(all.contains(part[k]));
    assert(is_under(p, all[all.index_of(part[k])]));
}

proof fn lemma_listed_by_part(part: Seq<Seq<u8>>, all: Seq<Seq<u8>>, p: Seq<u8>)
    requires
        lists(part, p),
        forall|r: Seq<u8>| part.contains(r) ==> #[trigger] all.contains(r),
    ensures
        lists(all, p),
{
    let k = choose|k: int| 0 <= k < part.len() && components(#[trigger] part[k]) == components(p);
    assert(part.contains(part[k]));
    assert(all.contains(part[k]));
    assert(components(all[all.index_of(part[k])]) == components(p));
}

/// A declared path is there, and lies in the project or below one of the roots.
pub open spec fn is_reached(
    facts: FactsView,
    p: Seq<u8>,
    project: Seq<u8>,
    roots: Seq<Seq<u8>>,
) -> bool {
    &&& is_present(facts, p) == Ok::<bool, StopView>(true)
    &&& exists|canonical: Seq<u8>| #[trigger]
        leads_to(facts, p, canonical) && (is_under(canonical, project) || covered(
            roots,
            canonical,
        ))
}

/// An argument needs `root`: as a declared path, or as a script.
pub open spec fn argument_calls_for(
    facts: FactsView,
    argument: Seq<u8>,
    project: Seq<u8>,
    host_path: Seq<u8>,
    root: Seq<u8>,
) -> bool {
    &&& is_absolute(argument)
    &&& declares_root(facts, argument, project, root) || script_calls_for(
        facts,
        argument,
        host_path,
        root,
    )
}

/// An argument needs `dir` on the search path.
pub open spec fn argument_calls_for_dir(
    facts: FactsView,
    argument: Seq<u8>,
    host_path: Seq<u8>,
    dir: Seq<u8>,
) -> bool {
    is_absolute(argument) && script_calls_for_dir(facts, argument, host_path, dir)
}

#[verifier::spinoff_prover]
#[verifier::rlimit(40)]
proof fn lemma_arguments(
    facts: FactsView,
    args: Seq<Seq<u8>>,
    label: MessageView,
    home: Seq<u8>,
    project: Seq<u8>,
    host_path: Seq<u8>,
    i: nat,
    found: LayoutView,
)
    requires
        arguments_layout(facts, args, label, home, project, host_path, i) == Ok::<
            LayoutView,
            StopView,
        >(found),
    ensures
        forall|j: int, root: Seq<u8>|
            i <= j < args.len() && #[trigger] argument_calls_for(
                facts,
                args[j],
                project,
                host_path,
                root,
            ) ==> covered(found.roots, root),
        forall|j: int, dir: Seq<u8>|
            i <= j < args.len() && #[trigger] argument_calls_for_dir(
                facts,
                args[j],
                host_path,
                dir,
            ) ==> lists(found.path_dirs, dir),
        forall|root: Seq<u8>| #[trigger]
            found.roots.contains(root) ==> exists|j: int|
                i <= j < args.len() && #[trigger] argument_calls_for(
                    facts,
                    args[j],
                    project,
                    host_path,
                    root,
                ),
        forall|dir: Seq<u8>| #[trigger]
            found.path_dirs.contains(dir) ==> exists|j: int|
                i <= j < args.len() && #[trigger] argument_calls_for_dir(
                    facts,
                    args[j],
                    host_path,
                    dir,
                ),
        forall|j: int|
            i <= j < args.len() && is_absolute(#[trigger] args[j]) ==> is_reached(
                facts,
                args[j],
                project,
                found.roots,
            ) && has_interpreter(facts, args[j], host_path),
    decreases args.len() - i,
{
    if i < args.len() {
        let argument = args[i as int];
        let here = argument_layout(facts, argument, label, home, project, host_path);
        let rest = arguments_layout(facts, args, label, home, project, host_path, i + 1);
        lemma_followed(here, rest, found);
        lemma_arguments(facts, args, label, home, project, host_path, i + 1, rest->Ok_0);
        if is_absolute(argument) {
            let declared = declared_layout(facts, argument, home, project);
            let script = shebang_layout(facts, argument, host_path, home, label);
            lemma_followed(declared, script, here->Ok_0);
            law_declared_is_provided(facts, argument, home, project, declared->Ok_0);
            law_script_is_provided(facts, argument, host_path, home, label, script->Ok_0);
            assert forall|root: Seq<u8>| #[trigger]
                argument_calls_for(facts, argument, project, host_path, root) implies covered(
                found.roots,
                root,
            ) by {
                if declares_root(facts, argument, project, root) {
                    assert(declared->Ok_0.roots.contains(root));
                    lemma_held(declared->Ok_0.roots, root);
                }
            }
            assert forall|root: Seq<u8>| #[trigger]
                here->Ok_0.roots.contains(root) implies argument_calls_for(
                facts,
                args[i as int],
                project,
                host_path,
                root,
            ) by {}
            assert forall|dir: Seq<u8>| #[trigger]
                here->Ok_0.path_dirs.contains(dir) implies argument_calls_for_dir(
                facts,
                args[i as int],
                host_path,
                dir,
            ) by {}
            assert(is_reached(facts, argument, project, found.roots)) by {
                let canonical = choose|canonical: Seq<u8>| #[trigger]
                    leads_to(facts, argument, canonical) && (is_under(canonical, project)
                        || covered(declared->Ok_0.roots, canonical));
                assert(leads_to(facts, argument, canonical));
            }
        } else {
            assert(here->Ok_0 == no_layout());
        }
        assert forall|j: int| i < j < args.len() && is_absolute(#[trigger] args[j]) implies is_reached(
            facts,
            args[j],
            project,
            found.roots,
        ) by {
            let canonical = choose|canonical: Seq<u8>| #[trigger]
                leads_to(facts, args[j], canonical) && (is_under(canonical, project) || covered(
                    rest->Ok_0.roots,
                    canonical,
                ));
            assert(leads_to(facts, args[j], canonical));
        }
    }
}

/// The program at `p` goes by the name of a Python interpreter.
pub open spec fn is_python(p: Seq<u8>) -> bool {
    file_name(p) matches Some(name) && valid_utf8(name) && (name == bytes_of("python"@)
        || bytes_of("python3"@).is_prefix_of(name))
}

/// The path names a Python source file: its name is more than the extension.
pub open spec fn is_python_source(p: Seq<u8>) -> bool {
    file_name(p) matches Some(name) && name.len() > 3 && name.subrange(
        name.len() - 3,
        name.len() as int,
    ) == bytes_of(".py"@)
}

/// `root` is what one of the user's Python sites leads to.
pub open spec fn is_python_site(facts: FactsView, home: Seq<u8>, root: Seq<u8>) -> bool {
    entries_of(facts, join(home, bytes_of(".local/lib"@))) matches Ok(Some(entries)) && exists|
        i: int,
    |
        0 <= i < entries.len() && is_site(facts, #[trigger] entries[i], root)
}

pub open spec fn is_site(
    facts: FactsView,
    entry: ReplyOf<Seq<u8>, Seq<char>>,
    root: Seq<u8>,
) -> bool {
    entry matches ReplyOf::Got(dir) && is_dir(facts, join(dir, bytes_of("site-packages"@))) == Ok::<
        bool,
        StopView,
    >(true) && leads_to(facts, join(dir, bytes_of("site-packages"@)), root)
}

proof fn lemma_sites_found(
    facts: FactsView,
    entries: Seq<ReplyOf<Seq<u8>, Seq<char>>>,
    i: nat,
    found: LayoutView,
)
    requires
        sites_from(facts, entries, i) == Ok::<LayoutView, StopView>(found),
    ensures
        forall|root: Seq<u8>| #[trigger]
            found.roots.contains(root) <==> exists|j: int|
                i <= j < entries.len() && is_site(facts, #[trigger] entries[j], root),
        found.path_dirs == Seq::<Seq<u8>>::empty(),
    decreases entries.len() - i,
{
    if i < entries.len() {
        let dir = entries[i as int]->Got_0;
        let here = site_layout(facts, join(dir, bytes_of("site-packages"@)));
        let rest = sites_from(facts, entries, i + 1);
        lemma_followed(here, rest, found);
        lemma_sites_found(facts, entries, i + 1, rest->Ok_0);
        assert(found.path_dirs =~= Seq::empty());
        assert forall|root: Seq<u8>| #[trigger] here->Ok_0.roots.contains(root) <==> is_site(
            facts,
            entries[i as int],
            root,
        ) by {
            if is_site(facts, entries[i as int], root) {
                assert(here->Ok_0.roots[0] == root);
            }
        }
    }
}

/// The command of a server is found at `lexical`, which leads to `canonical`.
pub open spec fn starts(
    facts: FactsView,
    server: ServerView,
    host_path: Seq<u8>,
    lexical: Seq<u8>,
    canonical: Seq<u8>,
) -> bool {
    &&& resolved(facts, server.command, host_path, server.cwd) == Ok::<Seq<u8>, StopView>(lexical)
    &&& leads_to(facts, lexical, canonical)
}

/// A server is a Python interpreter that is given a source file.
pub open spec fn runs_python(
    server: ServerView,
    lexical: Seq<u8>,
    canonical: Seq<u8>,
) -> bool {
    &&& is_python(lexical) || is_python(canonical)
    &&& exists|i: int| 0 <= i < server.args.len() && is_python_source(#[trigger] server.args[i])
}

/// A server needs `root`: for its command, for the interpreter of its command, for
/// its working directory, for one of its arguments, or as a Python site.
pub open spec fn server_calls_for(
    facts: FactsView,
    server: ServerView,
    home: Seq<u8>,
    project: Seq<u8>,
    host_path: Seq<u8>,
    root: Seq<u8>,
) -> bool {
    ||| exists|lexical: Seq<u8>, canonical: Seq<u8>| #[trigger]
        starts(facts, server, host_path, lexical, canonical) && {
            ||| calls_for(facts, lexical, canonical, root)
            ||| script_calls_for(facts, lexical, host_path, root)
            ||| runs_python(server, lexical, canonical) && is_python_site(facts, home, root)
        }
    ||| server.cwd matches Some(dir) && declares_root(facts, dir, project, root)
    ||| exists|i: int|
        0 <= i < server.args.len() && #[trigger] argument_calls_for(
            facts,
            server.args[i],
            project,
            host_path,
            root,
        )
}

/// A server needs `dir` on the search path: for its command, for the interpreter of
/// its command, or for one of its arguments.
pub open spec fn server_calls_for_dir(
    facts: FactsView,
    server: ServerView,
    host_path: Seq<u8>,
    dir: Seq<u8>,
) -> bool {
    ||| exists|lexical: Seq<u8>, canonical: Seq<u8>| #[trigger]
        starts(facts, server, host_path, lexical, canonical) && {
            ||| calls_for_dir(facts, lexical, canonical, dir)
            ||| script_calls_for_dir(facts, lexical, host_path, dir)
        }
    ||| exists|i: int|
        0 <= i < server.args.len() && #[trigger] argument_calls_for_dir(
            facts,
            server.args[i],
            host_path,
            dir,
        )
}

/// A server has what it takes to be run: its command is found and, if it is a
/// script, has an interpreter; its working directory and every absolute argument
/// is there, and lies in the project or below one of the roots; and an argument that
/// is a script has an interpreter.
pub open spec fn can_run(
    facts: FactsView,
    server: ServerView,
    project: Seq<u8>,
    host_path: Seq<u8>,
    roots: Seq<Seq<u8>>,
) -> bool {
    &&& exists|lexical: Seq<u8>, canonical: Seq<u8>| #[trigger]
        starts(facts, server, host_path, lexical, canonical) && has_interpreter(
            facts,
            lexical,
            host_path,
        )
    &&& server.cwd matches Some(dir) ==> is_reached(facts, dir, project, roots)
    &&& forall|i: int|
        0 <= i < server.args.len() && is_absolute(#[trigger] server.args[i]) ==> is_reached(
            facts,
            server.args[i],
            project,
            roots,
        ) && has_interpreter(facts, server.args[i], host_path)
}

proof fn lemma_python(server: ServerView, lexical: Seq<u8>, canonical: Seq<u8>)
    ensures
        runs_python(server, lexical, canonical) <==> (called_python(lexical) || called_python(
            canonical,
        )) && any_python_file(server.args),
{
    assert forall|i: int| 0 <= i < server.args.len() implies is_python_source(
        #[trigger] server.args[i],
    ) == is_python_file(server.args[i]) by {
        if let Some(name) = file_name(server.args[i]) {
            if name.len() > 3 {
                assert(name.subrange(name.len() - 3, name.len() as int) =~= name.skip(
                    name.len() - 3,
                ));
            }
        }
    }
    if runs_python(server, lexical, canonical) {
        let i = choose|i: int|
            0 <= i < server.args.len() && is_python_source(#[trigger] server.args[i]);
        assert(is_python_file(server.args[i]));
    }
    if any_python_file(server.args) {
        let i = choose|i: int|
            0 <= i < server.args.len() && is_python_file(#[trigger] server.args[i]);
        assert(is_python_source(server.args[i]));
    }
}

/// The parts of what is found for a server.
proof fn lemma_server_parts(
    facts: FactsView,
    server: ServerView,
    home: Seq<u8>,
    project: Seq<u8>,
    host_path: Seq<u8>,
    lexical: Seq<u8>,
    canonical: Seq<u8>,
    found: LayoutView,
)
    requires
        server_layout(facts, server, home, project, host_path) == Ok::<LayoutView, StopView>(found),
        starts(facts, server, host_path, lexical, canonical),
    ensures
        ({
            let label = server_label(server.name, server.source);
            let own = executable_layout(facts, lexical, canonical, home);
            let script = shebang_layout(facts, lexical, host_path, home, label);
            let cwd = cwd_layout(facts, server.cwd, label, home, project);
            let args = arguments_layout(facts, server.args, label, home, project, host_path, 0);
            let python = python_layout(facts, lexical, canonical, server.args, home);
            &&& own is Ok && script is Ok && cwd is Ok && args is Ok && python is Ok
            &&& forall|r: Seq<u8>| #[trigger]
                found.roots.contains(r) <==> own->Ok_0.roots.contains(r)
                    || script->Ok_0.roots.contains(r) || cwd->Ok_0.roots.contains(r)
                    || args->Ok_0.roots.contains(r) || python->Ok_0.roots.contains(r)
            &&& forall|d: Seq<u8>| #[trigger]
                found.path_dirs.contains(d) <==> own->Ok_0.path_dirs.contains(d)
                    || script->Ok_0.path_dirs.contains(d) || cwd->Ok_0.path_dirs.contains(d)
                    || args->Ok_0.path_dirs.contains(d) || python->Ok_0.path_dirs.contains(d)
        }),
{
    let label = server_label(server.name, server.source);
    let own = executable_layout(facts, lexical, canonical, home);
    let script = shebang_layout(facts, lexical, host_path, home, label);
    let cwd = cwd_layout(facts, server.cwd, label, home, project);
    let args = arguments_layout(facts, server.args, label, home, project, host_path, 0);
    let python = python_layout(facts, lexical, canonical, server.args, home);
    let two = followed_by(own, script);
    let three = followed_by(two, cwd);
    let four = followed_by(three, args);
    lemma_followed(four, python, found);
    lemma_followed(three, args, four->Ok_0);
    lemma_followed(two, cwd, three->Ok_0);
    lemma_followed(own, script, two->Ok_0);
}

proof fn lemma_starts(
    facts: FactsView,
    server: ServerView,
    home: Seq<u8>,
    project: Seq<u8>,
    host_path: Seq<u8>,
) -> (r: (Seq<u8>, Seq<u8>))
    requires
        server_layout(facts, server, home, project, host_path) is Ok,
    ensures
        starts(facts, server, host_path, r.0, r.1),
        forall|lexical: Seq<u8>, canonical: Seq<u8>| #[trigger]
            starts(facts, server, host_path, lexical, canonical) ==> lexical == r.0 && canonical
                == r.1,
{
    let lexical = resolved(facts, server.command, host_path, server.cwd)->Ok_0;
    let canonical = canonical_of(facts, lexical)->Ok_0->Got_0;
    (lexical, canonical)
}

/// What is found for a server is what it needs, on disk and on the search path, and
/// no more; and a server for which something is found has what it takes to be run.
#[verifier::spinoff_prover]
#[verifier::rlimit(60)]
pub proof fn law_server_is_provided(
    facts: FactsView,
    server: ServerView,
    home: Seq<u8>,
    project: Seq<u8>,
    host_path: Seq<u8>,
    found: LayoutView,
)
    requires
        server_layout(facts, server, home, project, host_path) == Ok::<LayoutView, StopView>(found),
    ensures
        forall|root: Seq<u8>| #[trigger]
            server_calls_for(facts, server, home, project, host_path, root) ==> covered(
                found.roots,
                root,
            ),
        forall|dir: Seq<u8>| #[trigger]
            server_calls_for_dir(facts, server, host_path, dir) ==> lists(found.path_dirs, dir),
        forall|root: Seq<u8>| #[trigger]
            found.roots.contains(root) ==> server_calls_for(
                facts,
                server,
                home,
                project,
                host_path,
                root,
            ),
        forall|dir: Seq<u8>| #[trigger]
            found.path_dirs.contains(dir) ==> server_calls_for_dir(facts, server, host_path, dir),
        can_run(facts, server, project, host_path, found.roots),
{
    let label = server_label(server.name, server.source);
    let (lexical, canonical) = lemma_starts(facts, server, home, project, host_path);
    let own = executable_layout(facts, lexical, canonical, home)->Ok_0;
    let script = shebang_layout(facts, lexical, host_path, home, label)->Ok_0;
    let cwd = cwd_layout(facts, server.cwd, label, home, project)->Ok_0;
    let args = arguments_layout(facts, server.args, label, home, project, host_path, 0)->Ok_0;
    let python = python_layout(facts, lexical, canonical, server.args, home)->Ok_0;
    lemma_server_parts(facts, server, home, project, host_path, lexical, canonical, found);
    law_executable_is_provided(facts, lexical, canonical, home, own);
    law_script_is_provided(facts, lexical, host_path, home, label, script);
    if let Some(dir) = server.cwd {
        law_declared_is_provided(facts, dir, home, project, cwd);
    }
    lemma_arguments(facts, server.args, label, home, project, host_path, 0, args);
    lemma_python(server, lexical, canonical);
    lemma_python_sites(facts, server, home, lexical, canonical, python);
    assert forall|root: Seq<u8>| #[trigger]
        server_calls_for(facts, server, home, project, host_path, root) implies covered(
        found.roots,
        root,
    ) by {
        if calls_for(facts, lexical, canonical, root) {
            lemma_covered_by_part(own.roots, found.roots, root);
        } else if script_calls_for(facts, lexical, host_path, root) {
            lemma_covered_by_part(script.roots, found.roots, root);
        } else if runs_python(server, lexical, canonical) && is_python_site(facts, home, root) {
            assert(python.roots.contains(root));
            lemma_held(found.roots, root);
        } else if server.cwd is Some && declares_root(facts, server.cwd->0, project, root) {
            assert(cwd.roots.contains(root));
            lemma_held(found.roots, root);
        } else {
            lemma_covered_by_part(args.roots, found.roots, root);
        }
    }
    assert forall|dir: Seq<u8>| #[trigger]
        server_calls_for_dir(facts, server, host_path, dir) implies lists(found.path_dirs, dir) by {
        if calls_for_dir(facts, lexical, canonical, dir) {
            lemma_listed_by_part(own.path_dirs, found.path_dirs, dir);
        } else if script_calls_for_dir(facts, lexical, host_path, dir) {
            lemma_listed_by_part(script.path_dirs, found.path_dirs, dir);
        } else {
            lemma_listed_by_part(args.path_dirs, found.path_dirs, dir);
        }
    }
    assert forall|root: Seq<u8>| #[trigger] found.roots.contains(root) implies server_calls_for(
        facts,
        server,
        home,
        project,
        host_path,
        root,
    ) by {
        assert(starts(facts, server, host_path, lexical, canonical));
    }
    assert forall|dir: Seq<u8>| #[trigger]
        found.path_dirs.contains(dir) implies server_calls_for_dir(
        facts,
        server,
        host_path,
        dir,
    ) by {
        assert(starts(facts, server, host_path, lexical, canonical));
    }
    assert(can_run(facts, server, project, host_path, found.roots)) by {
        if let Some(dir) = server.cwd {
            assert(is_reached(facts, dir, project, cwd.roots));
            lemma_reached_by_part(facts, dir, project, cwd.roots, found.roots);
        }
        assert forall|i: int|
            0 <= i < server.args.len() && is_absolute(#[trigger] server.args[i]) implies is_reached(
            facts,
            server.args[i],
            project,
            found.roots,
        ) && has_interpreter(facts, server.args[i], host_path) by {
            lemma_reached_by_part(facts, server.args[i], project, args.roots, found.roots);
        }
        assert(starts(facts, server, host_path, lexical, canonical));
    }
}

proof fn lemma_reached_by_part(
    facts: FactsView,
    p: Seq<u8>,
    project: Seq<u8>,
    part: Seq<Seq<u8>>,
    all: Seq<Seq<u8>>,
)
    requires
        is_reached(facts, p, project, part),
        forall|r: Seq<u8>| part.contains(r) ==> #[trigger] all.contains(r),
    ensures
        is_reached(facts, p, project, all),
{
    let canonical = choose|canonical: Seq<u8>| #[trigger]
        leads_to(facts, p, canonical) && (is_under(canonical, project) || covered(part, canonical));
    if covered(part, canonical) {
        lemma_covered_by_part(part, all, canonical);
    }
    assert(leads_to(facts, p, canonical));
}

proof fn lemma_python_sites(
    facts: FactsView,
    server: ServerView,
    home: Seq<u8>,
    lexical: Seq<u8>,
    canonical: Seq<u8>,
    found: LayoutView,
)
    requires
        python_layout(facts, lexical, canonical, server.args, home) == Ok::<LayoutView, StopView>(
            found,
        ),
    ensures
        forall|root: Seq<u8>| #[trigger]
            found.roots.contains(root) <==> runs_python(server, lexical, canonical)
                && is_python_site(facts, home, root),
        found.path_dirs == Seq::<Seq<u8>>::empty(),
{
    lemma_python(server, lexical, canonical);
    if runs_python(server, lexical, canonical) {
        if let Ok(Some(entries)) = entries_of(facts, join(home, bytes_of(".local/lib"@))) {
            lemma_sites_found(facts, entries, 0, found);
        }
    }
}

/// Roots and search directories, each once, cover and list what they did.
proof fn lemma_each_once(all: LayoutView)
    ensures
        forall|p: Seq<u8>| #[trigger] covered(all.roots, p) ==> covered(roots(all.roots), p),
        forall|d: Seq<u8>| #[trigger] lists(all.path_dirs, d) ==> lists(distinct(all.path_dirs), d),
        forall|p: Seq<u8>| #[trigger] roots(all.roots).contains(p) ==> all.roots.contains(p),
        forall|d: Seq<u8>| #[trigger]
            distinct(all.path_dirs).contains(d) ==> all.path_dirs.contains(d),
        none_nested(roots(all.roots)),
        strictly_ordered(roots(all.roots)),
        strictly_ordered(distinct(all.path_dirs)),
{
    law_roots_cover(all.roots);
    law_distinct_paths(all.path_dirs);
    let kept = roots(all.roots);
    let dirs = distinct(all.path_dirs);
    assert forall|i: int| 0 <= i < all.roots.len() implies covered(
        kept,
        #[trigger] all.roots[i],
    ) by {
        let k = choose|k: int| 0 <= k < kept.len() && is_under(all.roots[i], #[trigger] kept[k]);
        assert(is_under(all.roots[i], kept[k]));
    }
    assert forall|i: int| 0 <= i < all.path_dirs.len() implies lists(
        dirs,
        #[trigger] all.path_dirs[i],
    ) by {
        let k = choose|k: int|
            0 <= k < dirs.len() && components(all.path_dirs[i]) == components(#[trigger] dirs[k]);
        assert(components(dirs[k]) == components(all.path_dirs[i]));
    }
    assert forall|p: Seq<u8>| #[trigger] covered(all.roots, p) implies covered(kept, p) by {
        lemma_covered_by_more(all.roots, kept, p);
    }
    assert forall|d: Seq<u8>| #[trigger] lists(all.path_dirs, d) implies lists(dirs, d) by {
        lemma_listed_by_more(all.path_dirs, dirs, d);
    }
    assert forall|p: Seq<u8>| #[trigger] kept.contains(p) implies all.roots.contains(p) by {
        assert(all.roots.contains(kept[kept.index_of(p)]));
    }
    assert forall|d: Seq<u8>| #[trigger] dirs.contains(d) implies all.path_dirs.contains(d) by {
        assert(all.path_dirs.contains(dirs[dirs.index_of(d)]));
    }
}

proof fn lemma_reached_by_more(
    facts: FactsView,
    p: Seq<u8>,
    project: Seq<u8>,
    some: Seq<Seq<u8>>,
    more: Seq<Seq<u8>>,
)
    requires
        is_reached(facts, p, project, some),
        forall|p: Seq<u8>| #[trigger] covered(some, p) ==> covered(more, p),
    ensures
        is_reached(facts, p, project, more),
{
    let canonical = choose|canonical: Seq<u8>| #[trigger]
        leads_to(facts, p, canonical) && (is_under(canonical, project) || covered(some, canonical));
    assert(leads_to(facts, p, canonical));
}

proof fn lemma_can_run_by_more(
    facts: FactsView,
    server: ServerView,
    project: Seq<u8>,
    host_path: Seq<u8>,
    some: Seq<Seq<u8>>,
    more: Seq<Seq<u8>>,
)
    requires
        can_run(facts, server, project, host_path, some),
        forall|p: Seq<u8>| #[trigger] covered(some, p) ==> covered(more, p),
    ensures
        can_run(facts, server, project, host_path, more),
{
    if let Some(dir) = server.cwd {
        lemma_reached_by_more(facts, dir, project, some, more);
    }
    assert forall|i: int|
        0 <= i < server.args.len() && is_absolute(#[trigger] server.args[i]) implies is_reached(
        facts,
        server.args[i],
        project,
        more,
    ) && has_interpreter(facts, server.args[i], host_path) by {
        lemma_reached_by_more(facts, server.args[i], project, some, more);
    }
}

/// The program that a command names is found at `lexical`, which leads to
/// `canonical`; what it and, if it is a script, its interpreter need is mounted and
/// on the search path; nothing else is; and nothing that is mounted is too wide. What is
/// mounted comes in path order and none of it below another, and so does the search
/// path, without a directory twice.
pub proof fn law_runtime_is_provided(
    facts: FactsView,
    command: Seq<u8>,
    host_path: Seq<u8>,
    home: Seq<u8>,
    found: RuntimeView,
)
    requires
        runtime(facts, command, host_path, home) == Ok::<RuntimeView, StopView>(found),
    ensures
        resolved(facts, command, host_path, None) == Ok::<Seq<u8>, StopView>(
            found.lexical_executable,
        ),
        leads_to(facts, found.lexical_executable, found.canonical_executable),
        has_interpreter(facts, found.lexical_executable, host_path),
        forall|root: Seq<u8>| #[trigger]
            runtime_calls_for(facts, found, host_path, root) ==> covered(found.mount_roots, root),
        forall|dir: Seq<u8>| #[trigger]
            runtime_calls_for_dir(facts, found, host_path, dir) ==> lists(found.path_dirs, dir),
        forall|root: Seq<u8>| #[trigger]
            found.mount_roots.contains(root) ==> runtime_calls_for(facts, found, host_path, root)
                && !is_too_wide(root, home),
        forall|dir: Seq<u8>| #[trigger]
            found.path_dirs.contains(dir) ==> runtime_calls_for_dir(facts, found, host_path, dir),
        none_nested(found.mount_roots),
        strictly_ordered(found.mount_roots),
        strictly_ordered(found.path_dirs),
{
    let lexical = found.lexical_executable;
    let canonical = found.canonical_executable;
    let label = seq![text("OMP"@)];
    let own = executable_layout(facts, lexical, canonical, home);
    let script = shebang_layout(facts, lexical, host_path, home, label);
    let all = followed_by(own, script)->Ok_0;
    lemma_followed(own, script, all);
    law_executable_is_provided(facts, lexical, canonical, home, own->Ok_0);
    law_script_is_provided(facts, lexical, host_path, home, label, script->Ok_0);
    lemma_each_once(all);
}

/// A program that was found needs `root`, for itself or for its interpreter.
pub open spec fn runtime_calls_for(
    facts: FactsView,
    found: RuntimeView,
    host_path: Seq<u8>,
    root: Seq<u8>,
) -> bool {
    ||| calls_for(facts, found.lexical_executable, found.canonical_executable, root)
    ||| script_calls_for(facts, found.lexical_executable, host_path, root)
}

/// A program that was found needs `dir` on the search path, for itself or for its
/// interpreter.
pub open spec fn runtime_calls_for_dir(
    facts: FactsView,
    found: RuntimeView,
    host_path: Seq<u8>,
    dir: Seq<u8>,
) -> bool {
    ||| calls_for_dir(facts, found.lexical_executable, found.canonical_executable, dir)
    ||| script_calls_for_dir(facts, found.lexical_executable, host_path, dir)
}

/// A program is refused where it is not found, where it leads nowhere, where it is a
/// script in trouble, or over a root that it needs and that is too wide.
pub proof fn law_runtime_is_owed(
    facts: FactsView,
    command: Seq<u8>,
    host_path: Seq<u8>,
    home: Seq<u8>,
    error: ErrorView,
)
    requires
        runtime(facts, command, host_path, home) == Err::<RuntimeView, StopView>(
            StopOf::Fail(error),
        ),
    ensures
        ({
            ||| resolved(facts, command, host_path, None) matches Err(StopOf::Fail(_))
            ||| resolved(facts, command, host_path, None) matches Ok(lexical) && {
                ||| canonical_of(facts, lexical) matches Ok(ReplyOf::Failed(_))
                ||| script_in_trouble(facts, lexical, host_path, home)
                ||| program_too_wide(facts, lexical, home)
            }
        }),
{
    if let Ok(lexical) = resolved(facts, command, host_path, None) {
        if let Ok(ReplyOf::Got(canonical)) = canonical_of(facts, lexical) {
            if executable_layout(facts, lexical, canonical, home) is Err {
                law_executable_is_owed(facts, lexical, canonical, home, error);
                assert(leads_to(facts, lexical, canonical));
            } else {
                law_script_is_owed(facts, lexical, host_path, home, seq![text("OMP"@)], error);
            }
        }
    }
}

/// A program needs a root that is too wide.
pub open spec fn program_too_wide(facts: FactsView, lexical: Seq<u8>, home: Seq<u8>) -> bool {
    exists|canonical: Seq<u8>, root: Seq<u8>| #[trigger]
        leads_to(facts, lexical, canonical) && #[trigger] calls_for(
            facts,
            lexical,
            canonical,
            root,
        ) && is_too_wide(root, home)
}

/// A declared path is not there, leads nowhere, or stands for a root that is too
/// wide.
pub open spec fn path_in_trouble(
    facts: FactsView,
    p: Seq<u8>,
    home: Seq<u8>,
    project: Seq<u8>,
) -> bool {
    ||| is_present(facts, p) == Ok::<bool, StopView>(false)
    ||| canonical_of(facts, p) matches Ok(ReplyOf::Failed(_))
    ||| top_of_nothing(facts, p, project)
    ||| exists|root: Seq<u8>| #[trigger]
        declares_root(facts, p, project, root) && is_too_wide(root, home)
}

/// One of the user's Python sites cannot be seen.
pub open spec fn sites_in_trouble(facts: FactsView, home: Seq<u8>) -> bool {
    entries_of(facts, join(home, bytes_of(".local/lib"@))) matches Ok(Some(entries)) && exists|
        i: int,
    |
        0 <= i < entries.len() && site_in_trouble(facts, #[trigger] entries[i])
}

pub open spec fn site_in_trouble(facts: FactsView, entry: ReplyOf<Seq<u8>, Seq<char>>) -> bool {
    match entry {
        ReplyOf::Failed(_) => true,
        ReplyOf::Got(dir) => is_dir(facts, join(dir, bytes_of("site-packages"@))) == Ok::<
            bool,
            StopView,
        >(true) && canonical_of(facts, join(dir, bytes_of("site-packages"@))) matches Ok(
            ReplyOf::Failed(_),
        ),
    }
}

/// A server cannot be had: its command is not found or leads nowhere, is a script in
/// trouble or needs a root that is too wide; its working directory or an absolute
/// argument is in trouble; or it runs Python and the user's sites are.
pub open spec fn server_in_trouble(
    facts: FactsView,
    server: ServerView,
    home: Seq<u8>,
    project: Seq<u8>,
    host_path: Seq<u8>,
) -> bool {
    match resolved(facts, server.command, host_path, server.cwd) {
        Err(stop) => stop is Fail,
        Ok(lexical) => {
            ||| canonical_of(facts, lexical) matches Ok(ReplyOf::Failed(_))
            ||| script_in_trouble(facts, lexical, host_path, home)
            ||| program_too_wide(facts, lexical, home)
            ||| server.cwd matches Some(dir) && path_in_trouble(facts, dir, home, project)
            ||| exists|i: int|
                0 <= i < server.args.len() && is_absolute(#[trigger] server.args[i]) && (
                path_in_trouble(facts, server.args[i], home, project) || script_in_trouble(
                    facts,
                    server.args[i],
                    host_path,
                    home,
                ))
            ||| sites_in_trouble(facts, home) && exists|canonical: Seq<u8>| #[trigger]
                leads_to(facts, lexical, canonical) && runs_python(server, lexical, canonical)
        },
    }
}

proof fn lemma_path_in_trouble(
    facts: FactsView,
    p: Seq<u8>,
    home: Seq<u8>,
    project: Seq<u8>,
)
    requires
        declared_layout(facts, p, home, project) matches Err(StopOf::Fail(_)),
    ensures
        path_in_trouble(facts, p, home, project),
{
    law_declared_is_owed(
        facts,
        p,
        home,
        project,
        declared_layout(facts, p, home, project)->Err_0->Fail_0,
    );
}

proof fn lemma_arguments_in_trouble(
    facts: FactsView,
    args: Seq<Seq<u8>>,
    label: MessageView,
    home: Seq<u8>,
    project: Seq<u8>,
    host_path: Seq<u8>,
    i: nat,
)
    requires
        arguments_layout(facts, args, label, home, project, host_path, i) matches Err(
            StopOf::Fail(_),
        ),
    ensures
        exists|j: int|
            0 <= j < args.len() && is_absolute(#[trigger] args[j]) && (path_in_trouble(
                facts,
                args[j],
                home,
                project,
            ) || script_in_trouble(facts, args[j], host_path, home)),
    decreases args.len() - i,
{
    let argument = args[i as int];
    if argument_layout(facts, argument, label, home, project, host_path) is Err {
        if declared_layout(facts, argument, home, project) is Err {
            lemma_path_in_trouble(facts, argument, home, project);
        } else {
            law_script_is_owed(
                facts,
                argument,
                host_path,
                home,
                label,
                shebang_layout(facts, argument, host_path, home, label)->Err_0->Fail_0,
            );
        }
        assert(is_absolute(args[i as int]));
    } else {
        lemma_arguments_in_trouble(facts, args, label, home, project, host_path, i + 1);
    }
}

proof fn lemma_sites_in_trouble(
    facts: FactsView,
    entries: Seq<ReplyOf<Seq<u8>, Seq<char>>>,
    i: nat,
)
    requires
        sites_from(facts, entries, i) matches Err(StopOf::Fail(_)),
    ensures
        exists|j: int| 0 <= j < entries.len() && site_in_trouble(facts, #[trigger] entries[j]),
    decreases entries.len() - i,
{
    match entries[i as int] {
        ReplyOf::Failed(_) => {
            assert(site_in_trouble(facts, entries[i as int]));
        },
        ReplyOf::Got(dir) => {
            if site_layout(facts, join(dir, bytes_of("site-packages"@))) is Err {
                assert(site_in_trouble(facts, entries[i as int]));
            } else {
                lemma_sites_in_trouble(facts, entries, i + 1);
            }
        },
    }
}

/// A server is refused only where it is in trouble.
pub proof fn law_server_is_owed(
    facts: FactsView,
    server: ServerView,
    home: Seq<u8>,
    project: Seq<u8>,
    host_path: Seq<u8>,
    error: ErrorView,
)
    requires
        server_layout(facts, server, home, project, host_path) == Err::<LayoutView, StopView>(
            StopOf::Fail(error),
        ),
    ensures
        server_in_trouble(facts, server, home, project, host_path),
{
    let label = server_label(server.name, server.source);
    if let Ok(lexical) = resolved(facts, server.command, host_path, server.cwd) {
        if let Ok(ReplyOf::Got(canonical)) = canonical_of(facts, lexical) {
            assert(leads_to(facts, lexical, canonical));
            if let Err(stop) = executable_layout(facts, lexical, canonical, home) {
                law_executable_is_owed(facts, lexical, canonical, home, stop->Fail_0);
            } else if shebang_layout(facts, lexical, host_path, home, label) is Err {
                law_script_is_owed(facts, lexical, host_path, home, label, error);
            } else if cwd_layout(facts, server.cwd, label, home, project) is Err {
                lemma_path_in_trouble(facts, server.cwd->0, home, project);
            } else if arguments_layout(
                facts,
                server.args,
                label,
                home,
                project,
                host_path,
                0,
            ) is Err {
                lemma_arguments_in_trouble(
                    facts,
                    server.args,
                    label,
                    home,
                    project,
                    host_path,
                    0,
                );
            } else {
                lemma_python(server, lexical, canonical);
                let entries = entries_of(facts, join(home, bytes_of(".local/lib"@)))->Ok_0->0;
                lemma_sites_in_trouble(facts, entries, 0);
            }
        }
    }
}

/// The file at `source` is there and declares the server.
pub open spec fn declared_in(
    facts: FactsView,
    schema: Schema,
    source: Seq<u8>,
    server: ServerView,
) -> bool {
    &&& is_file(facts, source) == Ok::<bool, StopView>(true)
    &&& configured_servers(facts, schema, source) matches Ok(servers) && servers.contains(server)
}

/// The user has configured the server, for OMP or for OpenCode.
pub open spec fn is_configured(facts: FactsView, home: Seq<u8>, server: ServerView) -> bool {
    ||| declared_in(facts, Schema::Omp, join(home, bytes_of(".omp/agent/mcp.json"@)), server)
    ||| declared_in(
        facts,
        Schema::OpenCode,
        join(join(home, bytes_of(".config/opencode"@)), bytes_of("opencode.json"@)),
        server,
    )
}

/// The user's OpenCode configuration directory is there, and leads to `root`.
pub open spec fn is_opencode_root(facts: FactsView, home: Seq<u8>, root: Seq<u8>) -> bool {
    &&& is_dir(facts, join(home, bytes_of(".config/opencode"@))) == Ok::<bool, StopView>(true)
    &&& leads_to(facts, join(home, bytes_of(".config/opencode"@)), root)
}

/// The servers that are looked at are the configured ones, those of OMP first.
pub proof fn law_all_servers(facts: FactsView, home: Seq<u8>, servers: Seq<ServerView>)
    requires
        all_servers(facts, home) == Ok::<Seq<ServerView>, StopView>(servers),
    ensures
        forall|server: ServerView| #[trigger]
            servers.contains(server) <==> is_configured(facts, home, server),
        exists|n: int|
            0 <= n <= servers.len() && #[trigger] are_declared(
                facts,
                Schema::Omp,
                join(home, bytes_of(".omp/agent/mcp.json"@)),
                servers.take(n),
            ) && are_declared(
                facts,
                Schema::OpenCode,
                join(join(home, bytes_of(".config/opencode"@)), bytes_of("opencode.json"@)),
                servers.skip(n),
            ),
{
    let first = servers_if_file(facts, Schema::Omp, omp_config(home))->Ok_0;
    let second = servers_if_file(facts, Schema::OpenCode, opencode_config(home))->Ok_0;
    let n = first.len() as int;
    assert(servers.take(n) =~= first);
    assert(servers.skip(n) =~= second);
    assert(are_declared(
        facts,
        Schema::Omp,
        join(home, bytes_of(".omp/agent/mcp.json"@)),
        servers.take(n),
    ));
    assert forall|server: ServerView| #[trigger] servers.contains(server) <==> is_configured(
        facts,
        home,
        server,
    ) by {
        if servers.contains(server) {
            let k = servers.index_of(server);
            if k < n {
                assert(first[k] == server);
            } else {
                assert(second[k - n] == server);
            }
        }
        if first.contains(server) {
            assert(servers[first.index_of(server)] == server);
        }
        if second.contains(server) {
            assert(servers[n + second.index_of(server)] == server);
        }
    }
}

/// These are the servers that the file at `source` declares; none, without a file.
pub open spec fn are_declared(
    facts: FactsView,
    schema: Schema,
    source: Seq<u8>,
    servers: Seq<ServerView>,
) -> bool {
    match is_file(facts, source) {
        Ok(true) => configured_servers(facts, schema, source) == Ok::<Seq<ServerView>, StopView>(
            servers,
        ),
        Ok(false) => servers.len() == 0,
        Err(_) => false,
    }
}

#[verifier::spinoff_prover]
#[verifier::rlimit(40)]
proof fn lemma_servers_provided(
    facts: FactsView,
    servers: Seq<ServerView>,
    home: Seq<u8>,
    project: Seq<u8>,
    host_path: Seq<u8>,
    i: nat,
    found: LayoutView,
)
    requires
        servers_layout(facts, servers, home, project, host_path, i) == Ok::<LayoutView, StopView>(
            found,
        ),
    ensures
        forall|j: int, root: Seq<u8>|
            i <= j < servers.len() && #[trigger] server_calls_for(
                facts,
                servers[j],
                home,
                project,
                host_path,
                root,
            ) ==> covered(found.roots, root),
        forall|j: int, dir: Seq<u8>|
            i <= j < servers.len() && #[trigger] server_calls_for_dir(
                facts,
                servers[j],
                host_path,
                dir,
            ) ==> lists(found.path_dirs, dir),
        forall|root: Seq<u8>| #[trigger]
            found.roots.contains(root) ==> exists|j: int|
                i <= j < servers.len() && #[trigger] server_calls_for(
                    facts,
                    servers[j],
                    home,
                    project,
                    host_path,
                    root,
                ),
        forall|dir: Seq<u8>| #[trigger]
            found.path_dirs.contains(dir) ==> exists|j: int|
                i <= j < servers.len() && #[trigger] server_calls_for_dir(
                    facts,
                    servers[j],
                    host_path,
                    dir,
                ),
        forall|j: int|
            i <= j < servers.len() ==> can_run(
                facts,
                #[trigger] servers[j],
                project,
                host_path,
                found.roots,
            ),
    decreases servers.len() - i,
{
    if i < servers.len() {
        let here = server_layout(facts, servers[i as int], home, project, host_path);
        let rest = servers_layout(facts, servers, home, project, host_path, i + 1);
        lemma_followed(here, rest, found);
        law_server_is_provided(facts, servers[i as int], home, project, host_path, here->Ok_0);
        lemma_servers_provided(facts, servers, home, project, host_path, i + 1, rest->Ok_0);
        assert forall|j: int| i <= j < servers.len() implies can_run(
            facts,
            #[trigger] servers[j],
            project,
            host_path,
            found.roots,
        ) by {
            if j == i {
                lemma_can_run_by_more(
                    facts,
                    servers[j],
                    project,
                    host_path,
                    here->Ok_0.roots,
                    found.roots,
                );
            } else {
                lemma_can_run_by_more(
                    facts,
                    servers[j],
                    project,
                    host_path,
                    rest->Ok_0.roots,
                    found.roots,
                );
            }
        }
    }
}

/// What every configured server needs is mounted and on the search path, and so is
/// the OpenCode configuration; nothing else is; and every server has what it takes to
/// be run. What is mounted comes in path order and none of it below another, and so does
/// the search path, without a directory twice.
#[verifier::spinoff_prover]
#[verifier::rlimit(40)]
pub proof fn law_servers_are_provided(
    facts: FactsView,
    home: Seq<u8>,
    project: Seq<u8>,
    host_path: Seq<u8>,
    found: DiscoveryView,
)
    requires
        discovery(facts, home, project, host_path) == Ok::<DiscoveryView, StopView>(found),
    ensures
        forall|server: ServerView| #[trigger]
            is_configured(facts, home, server) ==> can_run(
                facts,
                server,
                project,
                host_path,
                found.mount_roots,
            ),
        forall|server: ServerView, root: Seq<u8>|
            is_configured(facts, home, server) && #[trigger] server_calls_for(
                facts,
                server,
                home,
                project,
                host_path,
                root,
            ) ==> covered(found.mount_roots, root),
        forall|server: ServerView, dir: Seq<u8>|
            is_configured(facts, home, server) && #[trigger] server_calls_for_dir(
                facts,
                server,
                host_path,
                dir,
            ) ==> lists(found.path_dirs, dir),
        forall|root: Seq<u8>| #[trigger]
            is_opencode_root(facts, home, root) ==> covered(found.mount_roots, root),
        is_dir(facts, join(home, bytes_of(".config/opencode"@))) == Ok::<bool, StopView>(true)
            ==> exists|root: Seq<u8>| #[trigger] is_opencode_root(facts, home, root),
        forall|root: Seq<u8>| #[trigger]
            found.mount_roots.contains(root) ==> is_opencode_root(facts, home, root) || exists|
                server: ServerView,
            |
                is_configured(facts, home, server) && #[trigger] server_calls_for(
                    facts,
                    server,
                    home,
                    project,
                    host_path,
                    root,
                ),
        forall|dir: Seq<u8>| #[trigger]
            found.path_dirs.contains(dir) ==> exists|server: ServerView|
                is_configured(facts, home, server) && #[trigger] server_calls_for_dir(
                    facts,
                    server,
                    host_path,
                    dir,
                ),
        found.warnings == Seq::<Seq<char>>::empty(),
        none_nested(found.mount_roots),
        strictly_ordered(found.mount_roots),
        strictly_ordered(found.path_dirs),
{
    let servers = all_servers(facts, home)->Ok_0;
    let opencode = opencode_layout(facts, home);
    let each = servers_layout(facts, servers, home, project, host_path, 0);
    let all = discovered_layout(facts, home, project, host_path)->Ok_0;
    lemma_followed(opencode, each, all);
    lemma_each_once(all);
    law_all_servers(facts, home, servers);
    lemma_servers_provided(facts, servers, home, project, host_path, 0, each->Ok_0);
    assert forall|p: Seq<u8>| #[trigger] covered(each->Ok_0.roots, p) implies covered(
        found.mount_roots,
        p,
    ) by {
        assert(covered(all.roots, p));
    }
    assert forall|server: ServerView| #[trigger] is_configured(facts, home, server) implies can_run(
        facts,
        server,
        project,
        host_path,
        found.mount_roots,
    ) by {
        assert(servers.contains(server));
        let k = servers.index_of(server);
        lemma_can_run_by_more(
            facts,
            servers[k],
            project,
            host_path,
            each->Ok_0.roots,
            found.mount_roots,
        );
    }
    assert forall|server: ServerView, root: Seq<u8>|
        is_configured(facts, home, server) && #[trigger] server_calls_for(
            facts,
            server,
            home,
            project,
            host_path,
            root,
        ) implies covered(found.mount_roots, root) by {
        assert(servers.contains(server));
        let k = servers.index_of(server);
        assert(server_calls_for(facts, servers[k], home, project, host_path, root));
        assert(covered(each->Ok_0.roots, root));
    }
    assert forall|server: ServerView, dir: Seq<u8>|
        is_configured(facts, home, server) && #[trigger] server_calls_for_dir(
            facts,
            server,
            host_path,
            dir,
        ) implies lists(found.path_dirs, dir) by {
        assert(servers.contains(server));
        let k = servers.index_of(server);
        assert(server_calls_for_dir(facts, servers[k], host_path, dir));
        assert(lists(each->Ok_0.path_dirs, dir));
        assert(lists(all.path_dirs, dir));
    }
    assert forall|root: Seq<u8>| #[trigger] is_opencode_root(facts, home, root) implies covered(
        found.mount_roots,
        root,
    ) by {
        assert(opencode->Ok_0.roots[0] == root);
        assert(opencode->Ok_0.roots.contains(root));
        lemma_held(all.roots, root);
    }
    if is_dir(facts, join(home, bytes_of(".config/opencode"@))) == Ok::<bool, StopView>(true) {
        let root = canonical_of(facts, opencode_root(home))->Ok_0->Got_0;
        assert(is_opencode_root(facts, home, root));
    }
    assert forall|root: Seq<u8>| #[trigger] found.mount_roots.contains(root) implies is_opencode_root(
        facts,
        home,
        root,
    ) || exists|server: ServerView|
        is_configured(facts, home, server) && #[trigger] server_calls_for(
            facts,
            server,
            home,
            project,
            host_path,
            root,
        ) by {
        assert(all.roots.contains(root));
        if opencode->Ok_0.roots.contains(root) {
            assert(opencode->Ok_0.roots[opencode->Ok_0.roots.index_of(root)] == root);
        } else {
            let j = choose|j: int|
                0 <= j < servers.len() && #[trigger] server_calls_for(
                    facts,
                    servers[j],
                    home,
                    project,
                    host_path,
                    root,
                );
            assert(servers.contains(servers[j]));
        }
    }
    assert forall|dir: Seq<u8>| #[trigger] found.path_dirs.contains(dir) implies exists|
        server: ServerView,
    |
        is_configured(facts, home, server) && #[trigger] server_calls_for_dir(
            facts,
            server,
            host_path,
            dir,
        ) by {
        assert(all.path_dirs.contains(dir));
        let j = choose|j: int|
            0 <= j < servers.len() && #[trigger] server_calls_for_dir(
                facts,
                servers[j],
                host_path,
                dir,
            );
        assert(servers.contains(servers[j]));
    }
}

/// Discovery is refused where a configuration file cannot be read as one, where a
/// configured server is in trouble, or over the OpenCode configuration, which leads
/// nowhere or to what is too wide.
pub proof fn law_discovery_is_owed(
    facts: FactsView,
    home: Seq<u8>,
    project: Seq<u8>,
    host_path: Seq<u8>,
    error: ErrorView,
)
    requires
        discovery(facts, home, project, host_path) == Err::<DiscoveryView, StopView>(
            StopOf::Fail(error),
        ),
    ensures
        ({
            let opencode = join(home, bytes_of(".config/opencode"@));
            ||| unreadable(facts, Schema::Omp, join(home, bytes_of(".omp/agent/mcp.json"@)))
            ||| unreadable(facts, Schema::OpenCode, join(opencode, bytes_of("opencode.json"@)))
            ||| is_dir(facts, opencode) == Ok::<bool, StopView>(true) && canonical_of(
                facts,
                opencode,
            ) matches Ok(ReplyOf::Failed(_))
            ||| exists|root: Seq<u8>| #[trigger]
                is_opencode_root(facts, home, root) && is_too_wide(root, home)
            ||| exists|server: ServerView|
                is_configured(facts, home, server) && #[trigger] server_in_trouble(
                    facts,
                    server,
                    home,
                    project,
                    host_path,
                )
        }),
{
    if let Ok(servers) = all_servers(facts, home) {
        law_all_servers(facts, home, servers);
        if opencode_layout(facts, home) is Err {
            if let Ok(ReplyOf::Got(root)) = canonical_of(facts, opencode_root(home)) {
                assert(is_opencode_root(facts, home, root));
            }
        } else {
            let k = lemma_refused_server(facts, servers, home, project, host_path, 0);
            assert(servers.contains(servers[k]));
        }
    }
}

/// A configuration file is there and its servers cannot be had from it.
pub open spec fn unreadable(facts: FactsView, schema: Schema, source: Seq<u8>) -> bool {
    &&& is_file(facts, source) == Ok::<bool, StopView>(true)
    &&& configured_servers(facts, schema, source) matches Err(StopOf::Fail(_))
}

proof fn lemma_refused_server(
    facts: FactsView,
    servers: Seq<ServerView>,
    home: Seq<u8>,
    project: Seq<u8>,
    host_path: Seq<u8>,
    i: nat,
) -> (k: int)
    requires
        servers_layout(facts, servers, home, project, host_path, i) matches Err(StopOf::Fail(_)),
    ensures
        i <= k < servers.len(),
        server_in_trouble(facts, servers[k], home, project, host_path),
    decreases servers.len() - i,
{
    match server_layout(facts, servers[i as int], home, project, host_path) {
        Err(stop) => {
            law_server_is_owed(
                facts,
                servers[i as int],
                home,
                project,
                host_path,
                stop->Fail_0,
            );
            i as int
        },
        Ok(_) => lemma_refused_server(facts, servers, home, project, host_path, i + 1),
    }
}

/// What is found for a program before it is refused: its own directory, if that is
/// not too wide; and, if the refusal is not over that, its Node installation, if that
/// is not too wide either. Nothing is found that it does not need.
pub proof fn law_found_before_a_refusal(
    facts: FactsView,
    lexical: Seq<u8>,
    canonical: Seq<u8>,
    home: Seq<u8>,
    error: ErrorView,
)
    requires
        executable_layout(facts, lexical, canonical, home) == Err::<LayoutView, StopView>(
            StopOf::Fail(error),
        ),
    ensures
        ({
            let found = found_layout(facts, lexical, canonical, home);
            &&& forall|dir: Seq<u8>| #[trigger]
                lies_in(lexical, dir) && !is_too_wide(dir, home) ==> found.roots.contains(dir)
                    && found.path_dirs.contains(dir)
            &&& forall|root: Seq<u8>| #[trigger]
                node_of(facts, lexical, canonical, root) && !is_too_wide(root, home) && (forall|
                    dir: Seq<u8>,
                | #[trigger]
                    lies_in(lexical, dir) ==> !is_too_wide(dir, home)) ==> found.roots.contains(
                    root,
                ) && found.path_dirs.contains(join(root, bytes_of("bin"@)))
            &&& forall|root: Seq<u8>| #[trigger]
                found.roots.contains(root) ==> calls_for(facts, lexical, canonical, root)
                    && !is_too_wide(root, home)
        }),
{
    let found = found_layout(facts, lexical, canonical, home);
    let own = lexical_layout(lexical, home);
    let first = first_install(facts, lexical, canonical, home);
    let second = second_install(facts, lexical, canonical, home);
    lemma_node_of(facts, lexical, canonical);
    law_executable_mounts_are_narrow(facts, lexical, canonical, home);
    law_runtime_root(facts, lexical);
    law_runtime_root(facts, canonical);
    lemma_modules(canonical, ancestors(canonical).len());
    let rest = and_found(
        first,
        and_found(second, and_found(modules_layout(canonical, home), no_layout())),
    );
    let late = and_found(second, and_found(modules_layout(canonical, home), no_layout()));
    if own is Ok {
        lemma_joined(own->Ok_0.roots, rest.roots);
        lemma_joined(own->Ok_0.path_dirs, rest.path_dirs);
    }
    if first is Ok {
        lemma_joined(first->Ok_0.roots, late.roots);
        lemma_joined(first->Ok_0.path_dirs, late.path_dirs);
    }
    if second is Ok {
        let last = and_found(modules_layout(canonical, home), no_layout());
        lemma_joined(second->Ok_0.roots, last.roots);
    }
    assert forall|dir: Seq<u8>| #[trigger]
        lies_in(lexical, dir) && !is_too_wide(dir, home) implies found.roots.contains(dir)
        && found.path_dirs.contains(dir) by {
        assert(own->Ok_0.roots[0] == dir);
        assert(own->Ok_0.roots.contains(dir));
        assert(own->Ok_0.path_dirs[0] == dir);
        assert(own->Ok_0.path_dirs.contains(dir));
    }
    assert forall|root: Seq<u8>| #[trigger]
        node_of(facts, lexical, canonical, root) && !is_too_wide(root, home) && (forall|
            dir: Seq<u8>,
        | #[trigger]
            lies_in(lexical, dir) ==> !is_too_wide(dir, home)) implies found.roots.contains(root)
        && found.path_dirs.contains(join(root, bytes_of("bin"@))) by {
        if own is Err {
            assert(lies_in(lexical, parent(lexical)->0));
        }
        assert(first->Ok_0.roots[0] == root);
        assert(first->Ok_0.roots.contains(root));
        assert(first->Ok_0.path_dirs[0] == join(root, bytes_of("bin"@)));
        assert(first->Ok_0.path_dirs.contains(join(root, bytes_of("bin"@))));
    }
    assert forall|root: Seq<u8>| #[trigger] found.roots.contains(root) implies calls_for(
        facts,
        lexical,
        canonical,
        root,
    ) && !is_too_wide(root, home) by {
        assert(!is_broad(found.roots[found.roots.index_of(root)], home));
        if own->Ok_0.roots.contains(root) {
            assert(own->Ok_0.roots[own->Ok_0.roots.index_of(root)] == root);
            assert(lies_in(lexical, root));
        } else if first->Ok_0.roots.contains(root) {
            assert(first->Ok_0.roots[first->Ok_0.roots.index_of(root)] == root);
        } else if second->Ok_0.roots.contains(root) {
            assert(second->Ok_0.roots[second->Ok_0.roots.index_of(root)] == root);
        }
    }
}

} // verus!
