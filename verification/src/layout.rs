//! Where runtimes are installed, and what has to be mounted for them to run.
use vstd::prelude::*;
use vstd::string::*;
use vstd::utf8::valid_utf8;

use crate::bytes::{bytes_equal, bytes_of, bytes_start_with, is_utf8, text_bytes};
use crate::error::{failure, path, text, Error, ErrorView, Message};
use crate::host::{
    canonical_of, entries_of, fail, host_error, host_failure, is_dir, is_file, is_present,
    option_outcome, outcome, FactsView, HostFacts, ReplyOf, Stop, StopOf, StopView,
};
use crate::path::{
    ancestors, components, file_name, is_under, join, parent, ComponentOf, HostPath,
};
use crate::views::views;

verus! {

broadcast use crate::views::group_views;

/// Mount roots, and directories for the search path.
#[derive(Clone, Debug, PartialEq, Eq)]
pub struct Layout {
    pub roots: Vec<HostPath>,
    pub path_dirs: Vec<HostPath>,
}

pub struct LayoutView {
    pub roots: Seq<Seq<u8>>,
    pub path_dirs: Seq<Seq<u8>>,
}

impl View for Layout {
    type V = LayoutView;

    open spec fn view(&self) -> LayoutView {
        LayoutView { roots: views(self.roots@), path_dirs: views(self.path_dirs@) }
    }
}

pub open spec fn layout(roots: Seq<Seq<u8>>, path_dirs: Seq<Seq<u8>>) -> LayoutView {
    LayoutView { roots, path_dirs }
}

pub open spec fn no_layout() -> LayoutView {
    layout(Seq::empty(), Seq::empty())
}

/// One layout after another; the first stop wins.
pub open spec fn followed_by(
    first: Result<LayoutView, StopView>,
    second: Result<LayoutView, StopView>,
) -> Result<LayoutView, StopView> {
    match first {
        Err(stop) => Err(stop),
        Ok(a) => match second {
            Err(stop) => Err(stop),
            Ok(b) => Ok(layout(a.roots + b.roots, a.path_dirs + b.path_dirs)),
        },
    }
}

impl Layout {
    pub fn new() -> (r: Layout)
        ensures
            r@ == no_layout(),
    {
        let r = Layout { roots: Vec::new(), path_dirs: Vec::new() };
        assert(r@.roots =~= Seq::empty());
        assert(r@.path_dirs =~= Seq::empty());
        r
    }

    pub fn extend(&mut self, more: Layout)
        ensures
            final(self)@ == layout(
                old(self)@.roots + more@.roots,
                old(self)@.path_dirs + more@.path_dirs,
            ),
    {
        let mut roots = more.roots;
        let mut path_dirs = more.path_dirs;
        self.roots.append(&mut roots);
        self.path_dirs.append(&mut path_dirs);
    }
}

/// One layout after another; the first stop wins.
pub fn join_layouts(first: Result<Layout, Stop>, second: Result<Layout, Stop>) -> (r: Result<
    Layout,
    Stop,
>)
    ensures
        outcome(r) == followed_by(outcome(first), outcome(second)),
{
    match first {
        Err(stop) => Err(stop),
        Ok(a) => match second {
            Err(stop) => Err(stop),
            Ok(b) => {
                let mut all = a;
                all.extend(b);
                Ok(all)
            },
        },
    }
}

/// A mount of `root` would open the whole file system, all homes, or a whole home.
pub open spec fn is_broad(root: Seq<u8>, home: Seq<u8>) -> bool {
    ||| components(root) == components(bytes_of("/"@))
    ||| components(root) == components(bytes_of("/home"@))
    ||| components(root) == components(home)
}

pub open spec fn broad_failure(root: Seq<u8>) -> ErrorView {
    failure(
        seq![text("refusing inferred broad mount "@)].push(path(root)).push(
            text("; use --allow-read with a narrower path"@),
        ),
    )
}

/// Refuses a root that is too broad to be mounted without being asked for.
pub fn reject_broad_root(root: &HostPath, home: &HostPath) -> (r: Result<(), Error>)
    ensures
        match r {
            Ok(_) => !is_broad(root@, home@),
            Err(error) => is_broad(root@, home@) && error@ == broad_failure(root@),
        },
{
    if root.same(&HostPath::new("/")) || root.same(&HostPath::new("/home")) || root.same(home) {
        Err(
            Error::new(
                Message::new("refusing inferred broad mount ").path(root).text(
                    "; use --allow-read with a narrower path",
                ),
            ),
        )
    } else {
        Ok(())
    }
}

/// The one root `root`, if it is not too broad.
pub open spec fn narrow_root(root: Seq<u8>, home: Seq<u8>) -> Result<LayoutView, StopView> {
    if is_broad(root, home) {
        fail(broad_failure(root))
    } else {
        Ok(layout(seq![root], Seq::empty()))
    }
}

fn add_narrow_root(root: &HostPath, home: &HostPath) -> (r: Result<Layout, Stop>)
    ensures
        outcome(r) == narrow_root(root@, home@),
{
    match reject_broad_root(root, home) {
        Err(error) => Err(StopOf::Fail(error)),
        Ok(_) => {
            let mut all = Layout::new();
            all.roots.push(root.copy());
            Ok(all)
        },
    }
}

/// The path runs through a directory that fnm makes for one shell session.
pub open spec fn through_fnm(p: Seq<u8>) -> bool {
    components(p).contains(ComponentOf::Normal(bytes_of("fnm_multishells"@)))
}

pub fn is_fnm_transient(p: &HostPath) -> (r: bool)
    ensures
        r == through_fnm(p@),
{
    let parts = p.components();
    let session = text_bytes("fnm_multishells");
    let mut i: usize = 0;
    while i < parts.len()
        invariant
            i <= parts.len(),
            views(parts@) == components(p@),
            session@ == bytes_of("fnm_multishells"@),
            forall|j: int| 0 <= j < i ==> views(parts@)[j] != ComponentOf::Normal(session@),
        decreases parts.len() - i,
    {
        if let ComponentOf::Normal(name) = &parts[i] {
            if bytes_equal(name.as_slice(), session.as_slice()) {
                assert(views(parts@)[i as int] == ComponentOf::Normal(session@));
                return true;
            }
        }
        i += 1;
    }
    false
}

/// The path belongs to the system, which is mounted in any case.
pub open spec fn in_system(p: Seq<u8>) -> bool {
    ||| is_under(p, bytes_of("/usr"@))
    ||| is_under(p, bytes_of("/bin"@))
    ||| is_under(p, bytes_of("/lib"@))
    ||| is_under(p, bytes_of("/lib64"@))
}

pub fn is_system_path(p: &HostPath) -> (r: bool)
    ensures
        r == in_system(p@),
{
    p.starts_with(&HostPath::new("/usr")) || p.starts_with(&HostPath::new("/bin"))
        || p.starts_with(&HostPath::new("/lib")) || p.starts_with(&HostPath::new("/lib64"))
}

/// The outermost of the first `n` ancestors that is called `node_modules`.
pub open spec fn outermost_modules(tree: Seq<Seq<u8>>, n: nat) -> Option<Seq<u8>>
    decreases n,
{
    if n == 0 {
        None
    } else if file_name(tree[n - 1]) == Some(bytes_of("node_modules"@)) {
        Some(tree[n - 1])
    } else {
        outermost_modules(tree, (n - 1) as nat)
    }
}

pub open spec fn top_modules(p: Seq<u8>) -> Option<Seq<u8>> {
    outermost_modules(ancestors(p), ancestors(p).len())
}

/// The outermost directory called `node_modules` that the path runs through.
pub fn top_level_node_modules(p: &HostPath) -> (r: Option<HostPath>)
    ensures
        match r {
            Some(dir) => top_modules(p@) == Some(dir@),
            None => top_modules(p@) is None,
        },
{
    let tree = p.ancestors();
    let wanted = text_bytes("node_modules");
    let mut n: usize = tree.len();
    assert(views(tree@).len() == n);
    while n > 0
        invariant
            n <= tree.len(),
            views(tree@) == ancestors(p@),
            wanted@ == bytes_of("node_modules"@),
            top_modules(p@) == outermost_modules(views(tree@), n as nat),
        decreases n,
    {
        let dir = &tree[n - 1];
        assert(views(tree@)[n - 1] == dir@);
        if let Some(name) = dir.file_name() {
            if bytes_equal(name.as_slice(), wanted.as_slice()) {
                return Some(dir.copy());
            }
        }
        n -= 1;
    }
    None
}

/// `dir` holds a Node installation, and the path lies in its programs or modules.
pub open spec fn node_install_at(facts: FactsView, p: Seq<u8>, dir: Seq<u8>) -> Result<
    bool,
    StopView,
> {
    let modules = join(dir, bytes_of("lib/node_modules"@));
    match is_file(facts, join(dir, bytes_of("bin/node"@))) {
        Err(stop) => Err(stop),
        Ok(false) => Ok(false),
        Ok(true) => match is_dir(facts, modules) {
            Err(stop) => Err(stop),
            Ok(false) => Ok(false),
            Ok(true) => Ok(is_under(p, join(dir, bytes_of("bin"@))) || is_under(p, modules)),
        },
    }
}

/// The innermost Node installation among the ancestors from the `i`-th on.
pub open spec fn node_install_from(facts: FactsView, p: Seq<u8>, i: nat) -> Result<
    Option<Seq<u8>>,
    StopView,
>
    decreases ancestors(p).len() - i,
{
    if i >= ancestors(p).len() {
        Ok(None)
    } else {
        match node_install_at(facts, p, ancestors(p)[i as int]) {
            Err(stop) => Err(stop),
            Ok(true) => Ok(Some(ancestors(p)[i as int])),
            Ok(false) => node_install_from(facts, p, i + 1),
        }
    }
}

pub open spec fn node_install(facts: FactsView, p: Seq<u8>) -> Result<Option<Seq<u8>>, StopView> {
    node_install_from(facts, p, 0)
}

fn has_node_install(p: &HostPath, dir: &HostPath, host: &HostFacts) -> (r: Result<bool, Stop>)
    ensures
        outcome(r) == node_install_at(host@, p@, dir@),
{
    let modules = dir.join_text("lib/node_modules");
    match host.is_file(&dir.join_text("bin/node")) {
        Err(stop) => Err(stop),
        Ok(false) => Ok(false),
        Ok(true) => match host.is_dir(&modules) {
            Err(stop) => Err(stop),
            Ok(false) => Ok(false),
            Ok(true) => Ok(p.starts_with(&dir.join_text("bin")) || p.starts_with(&modules)),
        },
    }
}

/// The Node installation that the path belongs to.
pub fn find_node_install(p: &HostPath, host: &HostFacts) -> (r: Result<Option<HostPath>, Stop>)
    ensures
        option_outcome(r) == node_install(host@, p@),
{
    let tree = p.ancestors();
    let mut i: usize = 0;
    while i < tree.len()
        invariant
            i <= tree.len(),
            views(tree@) == ancestors(p@),
            node_install(host@, p@) == node_install_from(host@, p@, i as nat),
        decreases tree.len() - i,
    {
        assert(views(tree@)[i as int] == tree@[i as int]@);
        match has_node_install(p, &tree[i], host) {
            Err(stop) => {
                return Err(stop);
            },
            Ok(true) => {
                return Ok(Some(tree[i].copy()));
            },
            Ok(false) => {},
        }
        i += 1;
    }
    assert(views(tree@).len() == i);
    Ok(None)
}

/// What a directory can be the root of, told by the files that it holds.
#[derive(Clone, Copy, Debug, PartialEq, Eq)]
pub enum Marker {
    Environment,
    Project,
}

/// `dir` holds a file that marks it.
pub open spec fn is_marked(facts: FactsView, dir: Seq<u8>, marker: Marker) -> Result<
    bool,
    StopView,
> {
    match marker {
        Marker::Environment => is_file(facts, join(dir, bytes_of("pyvenv.cfg"@))),
        Marker::Project => match is_file(facts, join(dir, bytes_of("pyproject.toml"@))) {
            Ok(false) => is_file(facts, join(dir, bytes_of("package.json"@))),
            found => found,
        },
    }
}

fn has_marker(dir: &HostPath, marker: Marker, host: &HostFacts) -> (r: Result<bool, Stop>)
    ensures
        outcome(r) == is_marked(host@, dir@, marker),
{
    match marker {
        Marker::Environment => host.is_file(&dir.join_text("pyvenv.cfg")),
        Marker::Project => match host.is_file(&dir.join_text("pyproject.toml")) {
            Ok(false) => host.is_file(&dir.join_text("package.json")),
            found => found,
        },
    }
}

/// The innermost marked ancestor from the `i`-th on.
pub open spec fn marked_from(facts: FactsView, p: Seq<u8>, marker: Marker, i: nat) -> Result<
    Option<Seq<u8>>,
    StopView,
>
    decreases ancestors(p).len() - i,
{
    if i >= ancestors(p).len() {
        Ok(None)
    } else {
        match is_marked(facts, ancestors(p)[i as int], marker) {
            Err(stop) => Err(stop),
            Ok(true) => Ok(Some(ancestors(p)[i as int])),
            Ok(false) => marked_from(facts, p, marker, i + 1),
        }
    }
}

fn find_marked(p: &HostPath, marker: Marker, host: &HostFacts) -> (r: Result<
    Option<HostPath>,
    Stop,
>)
    ensures
        option_outcome(r) == marked_from(host@, p@, marker, 0),
{
    let tree = p.ancestors();
    let mut i: usize = 0;
    while i < tree.len()
        invariant
            i <= tree.len(),
            views(tree@) == ancestors(p@),
            marked_from(host@, p@, marker, 0) == marked_from(host@, p@, marker, i as nat),
        decreases tree.len() - i,
    {
        assert(views(tree@)[i as int] == tree@[i as int]@);
        match has_marker(&tree[i], marker, host) {
            Err(stop) => {
                return Err(stop);
            },
            Ok(true) => {
                return Ok(Some(tree[i].copy()));
            },
            Ok(false) => {},
        }
        i += 1;
    }
    assert(views(tree@).len() == i);
    Ok(None)
}

/// The root of what the path belongs to: its Node installation, else the
/// innermost virtual environment, else the innermost project, else its parent.
pub open spec fn runtime_root(facts: FactsView, p: Seq<u8>) -> Result<Option<Seq<u8>>, StopView> {
    match node_install(facts, p) {
        Err(stop) => Err(stop),
        Ok(Some(root)) => Ok(Some(root)),
        Ok(None) => match marked_from(facts, p, Marker::Environment, 0) {
            Err(stop) => Err(stop),
            Ok(Some(root)) => Ok(Some(root)),
            Ok(None) => match marked_from(facts, p, Marker::Project, 0) {
                Err(stop) => Err(stop),
                Ok(Some(root)) => Ok(Some(root)),
                Ok(None) => Ok(parent(p)),
            },
        },
    }
}

/// The root of the runtime that the path belongs to.
pub fn infer_runtime_root(p: &HostPath, host: &HostFacts) -> (r: Result<Option<HostPath>, Stop>)
    ensures
        option_outcome(r) == runtime_root(host@, p@),
{
    match find_node_install(p, host) {
        Err(stop) => {
            return Err(stop);
        },
        Ok(Some(root)) => {
            return Ok(Some(root));
        },
        Ok(None) => {},
    }
    match find_marked(p, Marker::Environment, host) {
        Err(stop) => {
            return Err(stop);
        },
        Ok(Some(root)) => {
            return Ok(Some(root));
        },
        Ok(None) => {},
    }
    match find_marked(p, Marker::Project, host) {
        Err(stop) => {
            return Err(stop);
        },
        Ok(Some(root)) => {
            return Ok(Some(root));
        },
        Ok(None) => {},
    }
    Ok(p.parent())
}

/// The directory of an executable that is neither the system's nor there for
/// one shell session only.
pub open spec fn lexical_layout(lexical: Seq<u8>, home: Seq<u8>) -> Result<LayoutView, StopView> {
    match parent(lexical) {
        Some(dir) => if through_fnm(lexical) || in_system(lexical) {
            Ok(no_layout())
        } else if is_broad(dir, home) {
            fail(broad_failure(dir))
        } else {
            Ok(layout(seq![dir], seq![dir]))
        },
        None => Ok(no_layout()),
    }
}

fn add_lexical_dir(lexical: &HostPath, home: &HostPath) -> (r: Result<Layout, Stop>)
    ensures
        outcome(r) == lexical_layout(lexical@, home@),
{
    let mut all = Layout::new();
    if !is_fnm_transient(lexical) && !is_system_path(lexical) {
        if let Some(dir) = lexical.parent() {
            match reject_broad_root(&dir, home) {
                Err(error) => {
                    return Err(StopOf::Fail(error));
                },
                Ok(_) => {
                    all.roots.push(dir.copy());
                    all.path_dirs.push(dir);
                },
            }
        }
    }
    Ok(all)
}

/// The Node installation of the canonical path, else of the lexical one.
pub open spec fn either_install(facts: FactsView, lexical: Seq<u8>, canonical: Seq<u8>) -> Result<
    Option<Seq<u8>>,
    StopView,
> {
    match node_install(facts, canonical) {
        Ok(None) => node_install(facts, lexical),
        found => found,
    }
}

/// The inferred root of one path, unless the path belongs to the system.
pub open spec fn inferred_layout(facts: FactsView, p: Seq<u8>, home: Seq<u8>) -> Result<
    LayoutView,
    StopView,
> {
    if in_system(p) {
        Ok(no_layout())
    } else {
        match runtime_root(facts, p) {
            Err(stop) => Err(stop),
            Ok(None) => Ok(no_layout()),
            Ok(Some(root)) => narrow_root(root, home),
        }
    }
}

fn add_inferred_root(p: &HostPath, home: &HostPath, host: &HostFacts) -> (r: Result<Layout, Stop>)
    ensures
        outcome(r) == inferred_layout(host@, p@, home@),
{
    if is_system_path(p) {
        return Ok(Layout::new());
    }
    match infer_runtime_root(p, host) {
        Err(stop) => Err(stop),
        Ok(None) => Ok(Layout::new()),
        Ok(Some(root)) => add_narrow_root(&root, home),
    }
}

/// The first part of the installation around an executable: the Node
/// installation and its programs, or else the inferred root of its lexical path.
pub open spec fn first_install(
    facts: FactsView,
    lexical: Seq<u8>,
    canonical: Seq<u8>,
    home: Seq<u8>,
) -> Result<LayoutView, StopView> {
    match either_install(facts, lexical, canonical) {
        Err(stop) => Err(stop),
        Ok(Some(root)) => if is_broad(root, home) {
            fail(broad_failure(root))
        } else {
            Ok(layout(seq![root], seq![join(root, bytes_of("bin"@))]))
        },
        Ok(None) => inferred_layout(facts, lexical, home),
    }
}

/// The second part: without a Node installation, the inferred root of the
/// canonical path.
pub open spec fn second_install(
    facts: FactsView,
    lexical: Seq<u8>,
    canonical: Seq<u8>,
    home: Seq<u8>,
) -> Result<LayoutView, StopView> {
    match either_install(facts, lexical, canonical) {
        Err(stop) => Err(stop),
        Ok(Some(_)) => Ok(no_layout()),
        Ok(None) => inferred_layout(facts, canonical, home),
    }
}

fn find_either_install(lexical: &HostPath, canonical: &HostPath, host: &HostFacts) -> (r: Result<
    Option<HostPath>,
    Stop,
>)
    ensures
        option_outcome(r) == either_install(host@, lexical@, canonical@),
{
    match find_node_install(canonical, host) {
        Ok(None) => find_node_install(lexical, host),
        found => found,
    }
}

fn add_first_install(
    lexical: &HostPath,
    canonical: &HostPath,
    home: &HostPath,
    host: &HostFacts,
) -> (r: Result<Layout, Stop>)
    ensures
        outcome(r) == first_install(host@, lexical@, canonical@, home@),
{
    match find_either_install(lexical, canonical, host) {
        Err(stop) => Err(stop),
        Ok(Some(root)) => match reject_broad_root(&root, home) {
            Err(error) => Err(StopOf::Fail(error)),
            Ok(_) => {
                let mut all = Layout::new();
                all.path_dirs.push(root.join_text("bin"));
                all.roots.push(root);
                Ok(all)
            },
        },
        Ok(None) => add_inferred_root(lexical, home, host),
    }
}

fn add_second_install(
    lexical: &HostPath,
    canonical: &HostPath,
    home: &HostPath,
    host: &HostFacts,
) -> (r: Result<Layout, Stop>)
    ensures
        outcome(r) == second_install(host@, lexical@, canonical@, home@),
{
    match find_either_install(lexical, canonical, host) {
        Err(stop) => Err(stop),
        Ok(Some(_)) => Ok(Layout::new()),
        Ok(None) => add_inferred_root(canonical, home, host),
    }
}

/// The modules around an executable.
pub open spec fn modules_layout(canonical: Seq<u8>, home: Seq<u8>) -> Result<LayoutView, StopView> {
    match top_modules(canonical) {
        None => Ok(no_layout()),
        Some(dir) => narrow_root(dir, home),
    }
}

fn add_modules(canonical: &HostPath, home: &HostPath) -> (r: Result<Layout, Stop>)
    ensures
        outcome(r) == modules_layout(canonical@, home@),
{
    match top_level_node_modules(canonical) {
        None => Ok(Layout::new()),
        Some(dir) => add_narrow_root(&dir, home),
    }
}

/// What an executable, found at `lexical` and leading to `canonical`, needs.
pub open spec fn executable_layout(
    facts: FactsView,
    lexical: Seq<u8>,
    canonical: Seq<u8>,
    home: Seq<u8>,
) -> Result<LayoutView, StopView> {
    followed_by(
        followed_by(
            followed_by(
                lexical_layout(lexical, home),
                first_install(facts, lexical, canonical, home),
            ),
            second_install(facts, lexical, canonical, home),
        ),
        modules_layout(canonical, home),
    )
}

/// What is found by the time of the first stop, if one comes: all of `first`, and
/// what is found of the rest.
pub open spec fn and_found(first: Result<LayoutView, StopView>, rest: LayoutView) -> LayoutView {
    match first {
        Err(_) => no_layout(),
        Ok(all) => layout(all.roots + rest.roots, all.path_dirs + rest.path_dirs),
    }
}

/// What is found of the needs of an executable by the time of the first stop.
pub open spec fn found_layout(
    facts: FactsView,
    lexical: Seq<u8>,
    canonical: Seq<u8>,
    home: Seq<u8>,
) -> LayoutView {
    and_found(
        lexical_layout(lexical, home),
        and_found(
            first_install(facts, lexical, canonical, home),
            and_found(
                second_install(facts, lexical, canonical, home),
                and_found(modules_layout(canonical, home), no_layout()),
            ),
        ),
    )
}

/// Where no stop comes, everything that an executable needs is found.
pub proof fn law_all_is_found(
    facts: FactsView,
    lexical: Seq<u8>,
    canonical: Seq<u8>,
    home: Seq<u8>,
)
    ensures
        executable_layout(facts, lexical, canonical, home) matches Ok(all) ==> found_layout(
            facts,
            lexical,
            canonical,
            home,
        ) == all,
{
    if let Ok(all) = executable_layout(facts, lexical, canonical, home) {
        let found = found_layout(facts, lexical, canonical, home);
        assert(found.roots =~= all.roots);
        assert(found.path_dirs =~= all.path_dirs);
    }
}

/// What an executable needs, or nothing where one part of it is refused.
pub fn find_executable_layout(
    lexical: &HostPath,
    canonical: &HostPath,
    home: &HostPath,
    host: &HostFacts,
) -> (r: Result<Layout, Stop>)
    ensures
        outcome(r) == executable_layout(host@, lexical@, canonical@, home@),
{
    join_layouts(
        join_layouts(
            join_layouts(
                add_lexical_dir(lexical, home),
                add_first_install(lexical, canonical, home, host),
            ),
            add_second_install(lexical, canonical, home, host),
        ),
        add_modules(canonical, home),
    )
}

fn add_found(
    found: Result<Layout, Stop>,
    roots: &mut Vec<HostPath>,
    path_dirs: &mut Vec<HostPath>,
) -> (r: Result<(), Stop>)
    ensures
        views(final(roots)@) == views(old(roots)@) + and_found(outcome(found), no_layout()).roots,
        views(final(path_dirs)@) == views(old(path_dirs)@) + and_found(
            outcome(found),
            no_layout(),
        ).path_dirs,
        match outcome(found) {
            Ok(_) => r is Ok,
            Err(stop) => outcome(r) == Err::<(), StopView>(stop),
        },
{
    match found {
        Err(stop) => {
            assert(views(roots@) + no_layout().roots =~= views(roots@));
            assert(views(path_dirs@) + no_layout().path_dirs =~= views(path_dirs@));
            Err(stop)
        },
        Ok(all) => {
            assert(all@.roots + no_layout().roots =~= all@.roots);
            assert(all@.path_dirs + no_layout().path_dirs =~= all@.path_dirs);
            let mut more_roots = all.roots;
            let mut more_dirs = all.path_dirs;
            roots.append(&mut more_roots);
            path_dirs.append(&mut more_dirs);
            Ok(())
        },
    }
}

/// Adds what an executable needs. What is found before a stop stays added.
pub fn add_executable_layout(
    lexical: &HostPath,
    canonical: &HostPath,
    home: &HostPath,
    host: &HostFacts,
    roots: &mut Vec<HostPath>,
    path_dirs: &mut Vec<HostPath>,
) -> (r: Result<(), Stop>)
    ensures
        views(final(roots)@) == views(old(roots)@) + found_layout(
            host@,
            lexical@,
            canonical@,
            home@,
        ).roots,
        views(final(path_dirs)@) == views(old(path_dirs)@) + found_layout(
            host@,
            lexical@,
            canonical@,
            home@,
        ).path_dirs,
        match executable_layout(host@, lexical@, canonical@, home@) {
            Ok(_) => r is Ok,
            Err(stop) => outcome(r) == Err::<(), StopView>(stop),
        },
{
    let ghost found = found_layout(host@, lexical@, canonical@, home@);
    let ghost some_roots = views(roots@);
    let ghost some_dirs = views(path_dirs@);
    if let Err(stop) = add_found(add_lexical_dir(lexical, home), roots, path_dirs) {
        return Err(stop);
    }
    if let Err(stop) = add_found(
        add_first_install(lexical, canonical, home, host),
        roots,
        path_dirs,
    ) {
        assert(views(roots@) =~= some_roots + found.roots);
        assert(views(path_dirs@) =~= some_dirs + found.path_dirs);
        return Err(stop);
    }
    if let Err(stop) = add_found(
        add_second_install(lexical, canonical, home, host),
        roots,
        path_dirs,
    ) {
        assert(views(roots@) =~= some_roots + found.roots);
        assert(views(path_dirs@) =~= some_dirs + found.path_dirs);
        return Err(stop);
    }
    let last = add_found(add_modules(canonical, home), roots, path_dirs);
    assert(views(roots@) =~= some_roots + found.roots);
    assert(views(path_dirs@) =~= some_dirs + found.path_dirs);
    last
}

/// The name of a Python interpreter.
pub open spec fn python_name(name: Seq<u8>) -> bool {
    &&& valid_utf8(name)
    &&& name == bytes_of("python"@) || bytes_of("python3"@).is_prefix_of(name)
}

pub open spec fn called_python(p: Seq<u8>) -> bool {
    match file_name(p) {
        Some(name) => python_name(name),
        None => false,
    }
}

fn is_called_python(p: &HostPath) -> (r: bool)
    ensures
        r == called_python(p@),
{
    match p.file_name() {
        None => false,
        Some(name) => {
            let plain = text_bytes("python");
            let three = text_bytes("python3");
            is_utf8(name.as_slice()) && (bytes_equal(name.as_slice(), plain.as_slice())
                || bytes_start_with(name.as_slice(), three.as_slice()))
        },
    }
}

/// Whether an executable goes by the name of a Python interpreter, under either
/// of its paths.
pub fn is_python_interpreter(lexical: &HostPath, canonical: &HostPath) -> (r: bool)
    ensures
        r == (called_python(lexical@) || called_python(canonical@)),
{
    is_called_python(lexical) || is_called_python(canonical)
}

/// The site directories below the listed ones, from the `i`-th on.
pub open spec fn sites_from(
    facts: FactsView,
    entries: Seq<ReplyOf<Seq<u8>, Seq<char>>>,
    i: nat,
) -> Result<LayoutView, StopView>
    decreases entries.len() - i,
{
    if i >= entries.len() {
        Ok(no_layout())
    } else {
        match entries[i as int] {
            ReplyOf::Failed(why) => fail(host_failure(why)),
            ReplyOf::Got(dir) => followed_by(
                site_layout(facts, join(dir, bytes_of("site-packages"@))),
                sites_from(facts, entries, i + 1),
            ),
        }
    }
}

/// A site directory in its canonical form, if there is one.
pub open spec fn site_layout(facts: FactsView, site: Seq<u8>) -> Result<LayoutView, StopView> {
    match is_dir(facts, site) {
        Err(stop) => Err(stop),
        Ok(false) => Ok(no_layout()),
        Ok(true) => match canonical_of(facts, site) {
            Err(stop) => Err(stop),
            Ok(ReplyOf::Failed(why)) => fail(host_failure(why)),
            Ok(ReplyOf::Got(root)) => Ok(layout(seq![root], Seq::empty())),
        },
    }
}

/// The user's Python site directories. A user without any has none to mount.
pub open spec fn user_sites(facts: FactsView, home: Seq<u8>) -> Result<LayoutView, StopView> {
    match entries_of(facts, join(home, bytes_of(".local/lib"@))) {
        Err(stop) => Err(stop),
        Ok(None) => Ok(no_layout()),
        Ok(Some(entries)) => sites_from(facts, entries, 0),
    }
}

fn find_site(site: &HostPath, host: &HostFacts) -> (r: Result<Layout, Stop>)
    ensures
        outcome(r) == site_layout(host@, site@),
{
    match host.is_dir(site) {
        Err(stop) => Err(stop),
        Ok(false) => Ok(Layout::new()),
        Ok(true) => match host.canonical(site) {
            Err(stop) => Err(stop),
            Ok(ReplyOf::Failed(why)) => Err(StopOf::Fail(host_error(why))),
            Ok(ReplyOf::Got(root)) => {
                let mut all = Layout::new();
                all.roots.push(root.copy());
                Ok(all)
            },
        },
    }
}

pub fn add_python_user_sites(home: &HostPath, host: &HostFacts) -> (r: Result<Layout, Stop>)
    ensures
        outcome(r) == user_sites(host@, home@),
{
    let entries = match host.entries(&home.join_text(".local/lib")) {
        Err(stop) => {
            return Err(stop);
        },
        Ok(None) => {
            return Ok(Layout::new());
        },
        Ok(Some(entries)) => entries,
    };
    let ghost listed = views(entries@);
    let mut all = Layout::new();
    let mut i: usize = 0;
    assert(followed_by(Ok(all@), sites_from(host@, listed, 0)) == sites_from(host@, listed, 0)) by {
        lemma_after_nothing(sites_from(host@, listed, 0));
    }
    while i < entries.len()
        invariant
            i <= entries.len(),
            listed == views(entries@),
            user_sites(host@, home@) == sites_from(host@, listed, 0),
            followed_by(Ok(all@), sites_from(host@, listed, i as nat)) == sites_from(
                host@,
                listed,
                0,
            ),
        decreases entries.len() - i,
    {
        assert(listed[i as int] == entries@[i as int]@);
        match &entries[i] {
            ReplyOf::Failed(why) => {
                return Err(StopOf::Fail(host_error(why)));
            },
            ReplyOf::Got(dir) => {
                let ghost before = all@;
                match find_site(&dir.join_text("site-packages"), host) {
                    Err(stop) => {
                        return Err(stop);
                    },
                    Ok(found) => {
                        all.extend(found);
                        proof {
                            lemma_followed_by_associative(
                                Ok(before),
                                Ok(found@),
                                sites_from(host@, listed, i as nat + 1),
                            );
                        }
                    },
                }
            },
        }
        i += 1;
    }
    proof {
        assert(listed.len() == i);
        assert(all@.roots + no_layout().roots =~= all@.roots);
        assert(all@.path_dirs + no_layout().path_dirs =~= all@.path_dirs);
    }
    Ok(all)
}

pub proof fn lemma_after_nothing(next: Result<LayoutView, StopView>)
    ensures
        followed_by(Ok(no_layout()), next) == next,
{
    if let Ok(b) = next {
        assert(no_layout().roots + b.roots =~= b.roots);
        assert(no_layout().path_dirs + b.path_dirs =~= b.path_dirs);
    }
}

pub proof fn lemma_followed_by_associative(
    a: Result<LayoutView, StopView>,
    b: Result<LayoutView, StopView>,
    c: Result<LayoutView, StopView>,
)
    ensures
        followed_by(followed_by(a, b), c) == followed_by(a, followed_by(b, c)),
{
    if a is Ok && b is Ok && c is Ok {
        assert((a->Ok_0.roots + b->Ok_0.roots) + c->Ok_0.roots =~= a->Ok_0.roots + (b->Ok_0.roots
            + c->Ok_0.roots));
        assert((a->Ok_0.path_dirs + b->Ok_0.path_dirs) + c->Ok_0.path_dirs =~= a->Ok_0.path_dirs + (
        b->Ok_0.path_dirs + c->Ok_0.path_dirs));
    }
}

/// The directory that a declared path stands for, unless it can be inferred: the
/// path itself if it is a directory, else the one that holds it.
pub open spec fn declared_dir(facts: FactsView, canonical: Seq<u8>) -> Result<Seq<u8>, StopView> {
    match is_dir(facts, canonical) {
        Err(stop) => Err(stop),
        Ok(true) => Ok(canonical),
        Ok(false) => match parent(canonical) {
            Some(dir) => Ok(dir),
            None => Ok(bytes_of("/"@)),
        },
    }
}

/// What a path that a server declares needs. Paths of the project are mounted
/// with it.
pub open spec fn declared_layout(
    facts: FactsView,
    p: Seq<u8>,
    home: Seq<u8>,
    project: Seq<u8>,
) -> Result<LayoutView, StopView> {
    match is_present(facts, p) {
        Err(stop) => Err(stop),
        Ok(false) => fail(
            failure(
                seq![text("configured path "@)].push(path(p)).push(text(" does not exist"@)),
            ),
        ),
        Ok(true) => match canonical_of(facts, p) {
            Err(stop) => Err(stop),
            Ok(ReplyOf::Failed(why)) => fail(host_failure(why)),
            Ok(ReplyOf::Got(canonical)) => if is_under(canonical, project) {
                Ok(no_layout())
            } else {
                match runtime_root(facts, canonical) {
                    Err(stop) => Err(stop),
                    Ok(Some(root)) => narrow_root(root, home),
                    Ok(None) => match declared_dir(facts, canonical) {
                        Err(stop) => Err(stop),
                        Ok(dir) => narrow_root(dir, home),
                    },
                }
            },
        },
    }
}

pub fn add_declared_path(
    p: &HostPath,
    home: &HostPath,
    project: &HostPath,
    host: &HostFacts,
) -> (r: Result<Layout, Stop>)
    ensures
        outcome(r) == declared_layout(host@, p@, home@, project@),
{
    match host.is_present(p) {
        Err(stop) => {
            return Err(stop);
        },
        Ok(false) => {
            return Err(
                StopOf::Fail(
                    Error::new(Message::new("configured path ").path(p).text(" does not exist")),
                ),
            );
        },
        Ok(true) => {},
    }
    let canonical = match host.canonical(p) {
        Err(stop) => {
            return Err(stop);
        },
        Ok(ReplyOf::Failed(why)) => {
            return Err(StopOf::Fail(host_error(why)));
        },
        Ok(ReplyOf::Got(canonical)) => canonical,
    };
    if canonical.starts_with(project) {
        return Ok(Layout::new());
    }
    match infer_runtime_root(canonical, host) {
        Err(stop) => Err(stop),
        Ok(Some(root)) => add_narrow_root(&root, home),
        Ok(None) => match host.is_dir(canonical) {
            Err(stop) => Err(stop),
            Ok(true) => add_narrow_root(canonical, home),
            Ok(false) => match canonical.parent() {
                Some(dir) => add_narrow_root(&dir, home),
                None => add_narrow_root(&HostPath::new("/"), home),
            },
        },
    }
}

/// No root of a layout is too broad.
pub open spec fn all_narrow(found: Result<LayoutView, StopView>, home: Seq<u8>) -> bool {
    found matches Ok(all) ==> forall|i: int|
        0 <= i < all.roots.len() ==> !is_broad(#[trigger] all.roots[i], home)
}

pub proof fn lemma_both_narrow(
    first: Result<LayoutView, StopView>,
    second: Result<LayoutView, StopView>,
    home: Seq<u8>,
)
    requires
        all_narrow(first, home),
        all_narrow(second, home),
    ensures
        all_narrow(followed_by(first, second), home),
{
}

/// Nothing that is mounted for an executable is the whole file system, all
/// homes, or the user's whole home; nor is what is found before a stop.
pub proof fn law_executable_mounts_are_narrow(
    facts: FactsView,
    lexical: Seq<u8>,
    canonical: Seq<u8>,
    home: Seq<u8>,
)
    ensures
        all_narrow(executable_layout(facts, lexical, canonical, home), home),
        all_narrow(
            Ok::<LayoutView, StopView>(found_layout(facts, lexical, canonical, home)),
            home,
        ),
{
    let own = lexical_layout(lexical, home);
    let first = first_install(facts, lexical, canonical, home);
    let second = second_install(facts, lexical, canonical, home);
    lemma_both_narrow(own, first, home);
    lemma_both_narrow(followed_by(own, first), second, home);
    lemma_both_narrow(
        followed_by(followed_by(own, first), second),
        modules_layout(canonical, home),
        home,
    );
}

/// Nothing that is mounted for a declared path is the whole file system, all
/// homes, or the user's whole home.
pub proof fn law_declared_mounts_are_narrow(
    facts: FactsView,
    p: Seq<u8>,
    home: Seq<u8>,
    project: Seq<u8>,
)
    ensures
        all_narrow(declared_layout(facts, p, home, project), home),
{
}

/// An executable adds to the search path its own directory, unless it belongs to
/// the system or to one shell session, and the programs of the Node installation
/// that is mounted for it; nothing else.
pub proof fn law_executable_search_dirs(
    facts: FactsView,
    lexical: Seq<u8>,
    canonical: Seq<u8>,
    home: Seq<u8>,
    found: LayoutView,
    dir: Seq<u8>,
)
    requires
        executable_layout(facts, lexical, canonical, home) == Ok::<LayoutView, StopView>(found),
        found.path_dirs.contains(dir),
    ensures
        (parent(lexical) == Some(dir) && !through_fnm(lexical) && !in_system(lexical)
            && found.roots.contains(dir)) || exists|root: Seq<u8>|
            #![trigger join(root, bytes_of("bin"@))]
            found.roots.contains(root) && dir == join(root, bytes_of("bin"@)),
{
    let own = lexical_layout(lexical, home)->Ok_0;
    let first = first_install(facts, lexical, canonical, home)->Ok_0;
    let second = second_install(facts, lexical, canonical, home)->Ok_0;
    let modules = modules_layout(canonical, home)->Ok_0;
    assert(found.roots =~= own.roots + first.roots + second.roots + modules.roots);
    assert(second.path_dirs =~= Seq::empty());
    assert(modules.path_dirs =~= Seq::empty());
    assert(found.path_dirs =~= own.path_dirs + first.path_dirs);
    let k = found.path_dirs.index_of(dir);
    if k < own.path_dirs.len() {
        assert(found.roots[0] == own.roots[0]);
        assert(own.path_dirs[k] == dir);
    } else {
        assert(first.path_dirs[k - own.path_dirs.len()] == dir);
        if let Ok(Some(root)) = either_install(facts, lexical, canonical) {
            assert(found.roots[own.roots.len() as int] == root);
            assert(dir == join(root, bytes_of("bin"@)));
        } else {
            assert(first.path_dirs =~= Seq::empty());
        }
    }
}

} // verus!
