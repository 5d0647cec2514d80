//! The Bubblewrap command of a launch.
use vstd::prelude::*;
use vstd::string::*;

use crate::bytes::{bytes_less, bytes_of, copy_bytes, text_bytes};
use crate::cli::{runtime_dir, runtime_dir_bytes};
use crate::env::{lemma_listed, lemma_listing, listed, listing_of};
use crate::path::{
    ancestors, components, copy_paths, is_under, join, lemma_under_transitive, parent, HostPath,
};
use crate::roots::{all_different, dedupe_roots, law_roots_cover, roots};
use crate::types::{LaunchSpec, LaunchView};
use crate::views::views;

verus! {

broadcast use crate::views::group_views;

/// A program and the words it is started with.
#[derive(Clone, Debug, PartialEq, Eq)]
pub struct BwrapCommand {
    pub program: HostPath,
    pub args: Vec<Vec<u8>>,
}

pub struct CommandView {
    pub program: Seq<u8>,
    pub args: Seq<Seq<u8>>,
}

impl View for BwrapCommand {
    type V = CommandView;

    open spec fn view(&self) -> CommandView {
        CommandView { program: self.program@, args: views(self.args@) }
    }
}

/// Words as they stand on a command line.
pub open spec fn said(words: Seq<Seq<char>>) -> Seq<Seq<u8>> {
    words.map_values(|word: Seq<char>| bytes_of(word))
}

fn say(args: &mut Vec<Vec<u8>>, words: Vec<&'static str>)
    ensures
        views(final(args)@) == views(old(args)@) + said(views(words@)),
{
    let ghost before = views(args@);
    let ghost all = said(views(words@));
    let mut i: usize = 0;
    assert(before + all.take(0) =~= before);
    while i < words.len()
        invariant
            i <= words.len(),
            all == said(views(words@)),
            views(args@) == before + all.take(i as int),
        decreases words.len() - i,
    {
        assert(all[i as int] == bytes_of(words@[i as int]@));
        assert(before + all.take(i + 1) =~= (before + all.take(i as int)).push(all[i as int]));
        args.push(text_bytes(words[i]));
        i += 1;
    }
    assert(all.take(all.len() as int) =~= all);
}

fn say_path(args: &mut Vec<Vec<u8>>, path: &HostPath)
    ensures
        views(final(args)@) == views(old(args)@).push(path@),
{
    args.push(copy_bytes(path.bytes.as_slice()));
}

pub open spec fn lock_place() -> Seq<char> {
    "/.sbox-omp.lock"@
}

/// A sandbox has namespaces of its own, but for the network; no user namespace
/// can be made inside it; and it ends with its parent.
pub open spec fn isolation_words() -> Seq<Seq<char>> {
    seq![
        "--unshare-user"@,
        "--unshare-all"@,
        "--share-net"@,
        "--disable-userns"@,
        "--die-with-parent"@,
    ]
}

/// The lock is held from inside for as long as the sandbox lives.
pub open spec fn lock_args(state_dir: Seq<u8>) -> Seq<Seq<u8>> {
    said(seq!["--bind"@]).push(join(state_dir, bytes_of("omp.lock"@))) + said(
        seq![lock_place(), "--lock-file"@, lock_place(), "--remount-ro"@, lock_place()],
    )
}

/// Fresh kernel, device and scratch directories.
pub open spec fn scratch_words() -> Seq<Seq<char>> {
    seq![
        "--proc"@,
        "/proc"@,
        "--dev"@,
        "/dev"@,
        "--perms"@,
        "1777"@,
        "--tmpfs"@,
        "/tmp"@,
        "--perms"@,
        "1777"@,
        "--tmpfs"@,
        "/var/tmp"@,
        "--perms"@,
        "0555"@,
        "--dir"@,
        "/run"@,
        "--perms"@,
        "0555"@,
        "--dir"@,
        "/run/user"@,
        "--perms"@,
        "0700"@,
        "--tmpfs"@,
    ]
}

/// The host's programs and libraries, read-only.
pub open spec fn system_words() -> Seq<Seq<char>> {
    seq![
        "--ro-bind"@,
        "/usr"@,
        "/usr"@,
        "--symlink"@,
        "usr/bin"@,
        "/bin"@,
        "--symlink"@,
        "usr/sbin"@,
        "/sbin"@,
        "--symlink"@,
        "usr/lib"@,
        "/lib"@,
        "--symlink"@,
        "usr/lib64"@,
        "/lib64"@,
        "--perms"@,
        "0555"@,
        "--dir"@,
        "/etc"@,
    ]
}

/// The parts of the host's settings that programs need.
pub open spec fn etc_names() -> Seq<Seq<char>> {
    seq![
        "passwd"@,
        "group"@,
        "nsswitch.conf"@,
        "resolv.conf"@,
        "hosts"@,
        "gai.conf"@,
        "localtime"@,
        "ld.so.cache"@,
        "ld.so.conf"@,
        "ld.so.conf.d"@,
        "pki"@,
        "ssl"@,
        "alternatives"@,
        "crypto-policies"@,
    ]
}

pub open spec fn etc_args(names: Seq<Seq<char>>, n: nat) -> Seq<Seq<u8>>
    decreases n,
{
    if n == 0 {
        Seq::empty()
    } else {
        let path = join(bytes_of("/etc"@), bytes_of(names[n - 1]));
        etc_args(names, (n - 1) as nat) + said(seq!["--ro-bind-try"@]).push(path).push(path)
    }
}

/// Everything that is the same in each sandbox of a user and state directory.
pub open spec fn base_args(state_dir: Seq<u8>, uid: u32) -> Seq<Seq<u8>> {
    said(isolation_words()) + lock_args(state_dir) + said(scratch_words()).push(runtime_dir(uid))
        + said(system_words()) + etc_args(etc_names(), etc_names().len())
}

fn say_isolation(args: &mut Vec<Vec<u8>>)
    ensures
        views(final(args)@) == views(old(args)@) + said(isolation_words()),
{
    let words = vec![
        "--unshare-user",
        "--unshare-all",
        "--share-net",
        "--disable-userns",
        "--die-with-parent",
    ];
    assert(views(words@) =~= isolation_words());
    say(args, words);
}

fn say_lock(args: &mut Vec<Vec<u8>>, state_dir: &HostPath)
    ensures
        views(final(args)@) == views(old(args)@) + lock_args(state_dir@),
{
    let ghost before = views(args@);
    let bind = vec!["--bind"];
    assert(views(bind@) =~= seq!["--bind"@]);
    say(args, bind);
    say_path(args, &state_dir.join_text("omp.lock"));
    let place = "/.sbox-omp.lock";
    let words = vec![place, "--lock-file", place, "--remount-ro", place];
    assert(views(words@) =~= seq![
        lock_place(),
        "--lock-file"@,
        lock_place(),
        "--remount-ro"@,
        lock_place(),
    ]);
    say(args, words);
    assert(views(args@) =~= before + lock_args(state_dir@));
}

fn say_scratch(args: &mut Vec<Vec<u8>>, uid: u32)
    ensures
        views(final(args)@) == views(old(args)@) + said(scratch_words()).push(runtime_dir(uid)),
{
    let words = vec![
        "--proc",
        "/proc",
        "--dev",
        "/dev",
        "--perms",
        "1777",
        "--tmpfs",
        "/tmp",
        "--perms",
        "1777",
        "--tmpfs",
        "/var/tmp",
        "--perms",
        "0555",
        "--dir",
        "/run",
        "--perms",
        "0555",
        "--dir",
        "/run/user",
        "--perms",
        "0700",
        "--tmpfs",
    ];
    assert(views(words@) =~= scratch_words());
    say(args, words);
    args.push(runtime_dir_bytes(uid));
}

fn say_system(args: &mut Vec<Vec<u8>>)
    ensures
        views(final(args)@) == views(old(args)@) + said(system_words()),
{
    let words = vec![
        "--ro-bind",
        "/usr",
        "/usr",
        "--symlink",
        "usr/bin",
        "/bin",
        "--symlink",
        "usr/sbin",
        "/sbin",
        "--symlink",
        "usr/lib",
        "/lib",
        "--symlink",
        "usr/lib64",
        "/lib64",
        "--perms",
        "0555",
        "--dir",
        "/etc",
    ];
    assert(views(words@) =~= system_words());
    say(args, words);
}

fn list_etc() -> (r: Vec<&'static str>)
    ensures
        views(r@) == etc_names(),
{
    let names = vec![
        "passwd",
        "group",
        "nsswitch.conf",
        "resolv.conf",
        "hosts",
        "gai.conf",
        "localtime",
        "ld.so.cache",
        "ld.so.conf",
        "ld.so.conf.d",
        "pki",
        "ssl",
        "alternatives",
        "crypto-policies",
    ];
    assert(views(names@) =~= etc_names());
    names
}

fn say_etc(args: &mut Vec<Vec<u8>>)
    ensures
        views(final(args)@) == views(old(args)@) + etc_args(etc_names(), etc_names().len()),
{
    let names = list_etc();
    let ghost before = views(args@);
    let etc = HostPath::new("/etc");
    let mut i: usize = 0;
    assert(before + etc_args(etc_names(), 0) =~= before);
    while i < names.len()
        invariant
            i <= names.len(),
            views(names@) == etc_names(),
            etc@ == bytes_of("/etc"@),
            views(args@) == before + etc_args(etc_names(), i as nat),
        decreases names.len() - i,
    {
        assert(etc_names()[i as int] == names@[i as int]@);
        let path = etc.join_text(names[i]);
        let word = vec!["--ro-bind-try"];
        assert(views(word@) =~= seq!["--ro-bind-try"@]);
        say(args, word);
        say_path(args, &path);
        say_path(args, &path);
        assert(views(args@) =~= before + etc_args(etc_names(), (i + 1) as nat));
        i += 1;
    }
    assert(etc_names().len() == i);
}

fn say_base(args: &mut Vec<Vec<u8>>, state_dir: &HostPath, uid: u32)
    ensures
        views(final(args)@) == views(old(args)@) + base_args(state_dir@, uid),
{
    let ghost before = views(args@);
    say_isolation(args);
    say_lock(args, state_dir);
    say_scratch(args, uid);
    say_system(args);
    say_etc(args);
    assert(views(args@) =~= before + base_args(state_dir@, uid));
}

/// A command line in the making, with the mount points whose directories it has
/// made so far.
pub struct Draft {
    pub args: Seq<Seq<u8>>,
    pub seen: Seq<Seq<u8>>,
}

pub open spec fn same_path(a: Seq<u8>, b: Seq<u8>) -> bool {
    components(a) == components(b)
}

pub open spec fn is_known(seen: Seq<Seq<u8>>, p: Seq<u8>) -> bool {
    exists|i: int| 0 <= i < seen.len() && same_path(#[trigger] seen[i], p)
}

/// An empty directory that nobody writes to.
pub open spec fn dir_args(p: Seq<u8>) -> Seq<Seq<u8>> {
    said(seq!["--perms"@, "0555"@, "--dir"@]).push(p)
}

/// A directory that every sandbox has.
pub open spec fn always_there(p: Seq<u8>) -> bool {
    ||| same_path(p, bytes_of("/"@))
    ||| is_under(p, bytes_of("/usr"@))
    ||| same_path(p, bytes_of("/etc"@))
}

/// Makes a directory above a mount point, unless there is one.
pub open spec fn with_parent(draft: Draft, p: Seq<u8>) -> Draft {
    if always_there(p) || is_known(draft.seen, p) {
        draft
    } else {
        Draft { args: draft.args + dir_args(p), seen: draft.seen.push(p) }
    }
}

/// Makes the first `n` of the directories, which are listed from the bottom up,
/// from the top down.
pub open spec fn with_first_parents(draft: Draft, upward: Seq<Seq<u8>>, n: nat) -> Draft
    decreases n,
{
    if n == 0 {
        draft
    } else {
        with_first_parents(with_parent(draft, upward[n - 1]), upward, (n - 1) as nat)
    }
}

/// Makes the directories above `destination`.
pub open spec fn with_parents(draft: Draft, destination: Seq<u8>) -> Draft {
    match parent(destination) {
        None => draft,
        Some(p) => with_first_parents(draft, ancestors(p), ancestors(p).len()),
    }
}

fn known(seen: &Vec<HostPath>, p: &HostPath) -> (r: bool)
    ensures
        r == is_known(views(seen@), p@),
{
    let ghost all = views(seen@);
    let mut i: usize = 0;
    while i < seen.len()
        invariant
            i <= seen.len(),
            all == views(seen@),
            forall|j: int| 0 <= j < i ==> !same_path(#[trigger] all[j], p@),
        decreases seen.len() - i,
    {
        assert(all[i as int] == seen@[i as int]@);
        if seen[i].same(p) {
            return true;
        }
        i += 1;
    }
    false
}

/// Makes room for a mount: the directories above it that are not there yet.
pub fn add_parent_dirs(args: &mut Vec<Vec<u8>>, destination: &HostPath, seen: &mut Vec<HostPath>)
    ensures
        (Draft { args: views(final(args)@), seen: views(final(seen)@) }) == with_parents(
            Draft { args: views(old(args)@), seen: views(old(seen)@) },
            destination@,
        ),
{
    let root = HostPath::new("/");
    let usr = HostPath::new("/usr");
    let etc = HostPath::new("/etc");
    let upward = match destination.parent() {
        None => {
            return;
        },
        Some(p) => p.ancestors(),
    };
    let ghost all = views(upward@);
    let ghost whole = with_first_parents(
        Draft { args: views(args@), seen: views(seen@) },
        all,
        all.len(),
    );
    let mut n: usize = upward.len();
    while n > 0
        invariant
            n <= upward.len(),
            all == views(upward@),
            root@ == bytes_of("/"@),
            usr@ == bytes_of("/usr"@),
            etc@ == bytes_of("/etc"@),
            whole == with_first_parents(
                Draft { args: views(args@), seen: views(seen@) },
                all,
                n as nat,
            ),
        decreases n,
    {
        let p = &upward[n - 1];
        assert(all[n - 1] == p@);
        if !p.same(&root) && !p.starts_with(&usr) && !p.same(&etc) && !known(seen, p) {
            let words = vec!["--perms", "0555", "--dir"];
            assert(views(words@) =~= seq!["--perms"@, "0555"@, "--dir"@]);
            let ghost before = views(args@);
            say(args, words);
            say_path(args, p);
            assert(views(args@) =~= before + dir_args(p@));
            seen.push(p.copy());
        }
        n -= 1;
    }
}

/// The same place on the host and in the sandbox.
pub open spec fn mount_args(word: Seq<char>, p: Seq<u8>) -> Seq<Seq<u8>> {
    said(seq![word]).push(p).push(p)
}

/// A mount, and the directories above it.
pub open spec fn with_mount(draft: Draft, word: Seq<char>, p: Seq<u8>) -> Draft {
    let made = with_parents(draft, p);
    Draft { args: made.args + mount_args(word, p), seen: made.seen }
}

fn add_mount(
    args: &mut Vec<Vec<u8>>,
    word: &'static str,
    p: &HostPath,
    seen: &mut Vec<HostPath>,
)
    ensures
        (Draft { args: views(final(args)@), seen: views(final(seen)@) }) == with_mount(
            Draft { args: views(old(args)@), seen: views(old(seen)@) },
            word@,
            p@,
        ),
{
    add_parent_dirs(args, p, seen);
    let ghost before = views(args@);
    let words = vec![word];
    assert(views(words@) =~= seq![word@]);
    say(args, words);
    say_path(args, p);
    say_path(args, p);
    assert(views(args@) =~= before + mount_args(word@, p@));
}

/// The system's programs are there already, and the project gets a mount of its
/// own.
pub open spec fn mounted_apart(p: Seq<u8>, project: Seq<u8>) -> bool {
    same_path(p, bytes_of("/usr"@)) || is_under(p, project)
}

/// Mounts the first `n` of the paths, read-only.
pub open spec fn with_read_only(
    draft: Draft,
    paths: Seq<Seq<u8>>,
    project: Seq<u8>,
    n: nat,
) -> Draft
    decreases n,
{
    if n == 0 {
        draft
    } else {
        let before = with_read_only(draft, paths, project, (n - 1) as nat);
        if mounted_apart(paths[n - 1], project) {
            before
        } else {
            with_mount(before, "--ro-bind"@, paths[n - 1])
        }
    }
}

fn add_read_only(
    args: &mut Vec<Vec<u8>>,
    paths: &Vec<HostPath>,
    project: &HostPath,
    seen: &mut Vec<HostPath>,
)
    ensures
        (Draft { args: views(final(args)@), seen: views(final(seen)@) }) == with_read_only(
            Draft { args: views(old(args)@), seen: views(old(seen)@) },
            views(paths@),
            project@,
            paths@.len(),
        ),
{
    let usr = HostPath::new("/usr");
    let ghost all = views(paths@);
    let ghost start = Draft { args: views(args@), seen: views(seen@) };
    let mut i: usize = 0;
    while i < paths.len()
        invariant
            i <= paths.len(),
            all == views(paths@),
            usr@ == bytes_of("/usr"@),
            (Draft { args: views(args@), seen: views(seen@) }) == with_read_only(
                start,
                all,
                project@,
                i as nat,
            ),
        decreases paths.len() - i,
    {
        assert(all[i as int] == paths@[i as int]@);
        if !paths[i].same(&usr) && !paths[i].starts_with(project) {
            add_mount(args, "--ro-bind", &paths[i], seen);
        }
        i += 1;
    }
}

/// The home directory: empty, but for the user's OMP files, which are laid under
/// those that the project keeps.
pub open spec fn home_args(home: Seq<u8>, state_dir: Seq<u8>, work: Seq<u8>) -> Seq<Seq<u8>> {
    let lower = join(home, bytes_of(".omp"@));
    dir_args(home) + said(seq!["--overlay-src"@]).push(lower) + said(seq!["--overlay"@]).push(
        join(state_dir, bytes_of("omp-upper"@)),
    ).push(work).push(lower)
}

fn say_home(args: &mut Vec<Vec<u8>>, home: &HostPath, state_dir: &HostPath, work: &HostPath)
    ensures
        views(final(args)@) == views(old(args)@) + home_args(home@, state_dir@, work@),
{
    let ghost before = views(args@);
    let dir = vec!["--perms", "0555", "--dir"];
    assert(views(dir@) =~= seq!["--perms"@, "0555"@, "--dir"@]);
    say(args, dir);
    say_path(args, home);
    let lower = home.join_text(".omp");
    let source = vec!["--overlay-src"];
    assert(views(source@) =~= seq!["--overlay-src"@]);
    say(args, source);
    say_path(args, &lower);
    let overlay = vec!["--overlay"];
    assert(views(overlay@) =~= seq!["--overlay"@]);
    say(args, overlay);
    say_path(args, &state_dir.join_text("omp-upper"));
    say_path(args, work);
    say_path(args, &lower);
    assert(views(args@) =~= before + home_args(home@, state_dir@, work@));
}

/// The state that the project keeps is hidden from the sandbox, and what is left
/// of its root is closed to writing.
pub open spec fn seal_args(project: Seq<u8>) -> Seq<Seq<u8>> {
    let hidden = join(project, bytes_of(".sbox"@));
    said(seq!["--perms"@, "0700"@, "--tmpfs"@]).push(hidden) + said(seq!["--remount-ro"@]).push(
        hidden,
    ) + said(seq!["--remount-ro"@, "/"@, "--clearenv"@])
}

fn say_seal(args: &mut Vec<Vec<u8>>, project: &HostPath)
    ensures
        views(final(args)@) == views(old(args)@) + seal_args(project@),
{
    let ghost before = views(args@);
    let hidden = project.join_text(".sbox");
    let fresh = vec!["--perms", "0700", "--tmpfs"];
    assert(views(fresh@) =~= seq!["--perms"@, "0700"@, "--tmpfs"@]);
    say(args, fresh);
    say_path(args, &hidden);
    let closed = vec!["--remount-ro"];
    assert(views(closed@) =~= seq!["--remount-ro"@]);
    say(args, closed);
    say_path(args, &hidden);
    let rest = vec!["--remount-ro", "/", "--clearenv"];
    assert(views(rest@) =~= seq!["--remount-ro"@, "/"@, "--clearenv"@]);
    say(args, rest);
    assert(views(args@) =~= before + seal_args(project@));
}

/// The first `n` variables, one by one.
pub open spec fn env_args(entries: Seq<(Seq<u8>, Seq<u8>)>, n: nat) -> Seq<Seq<u8>>
    decreases n,
{
    if n == 0 {
        Seq::empty()
    } else {
        env_args(entries, (n - 1) as nat) + said(seq!["--setenv"@]).push(entries[n - 1].0).push(
            entries[n - 1].1,
        )
    }
}

fn say_env(args: &mut Vec<Vec<u8>>, entries: &Vec<(Vec<u8>, Vec<u8>)>)
    ensures
        views(final(args)@) == views(old(args)@) + env_args(views(entries@), entries@.len()),
{
    let ghost before = views(args@);
    let ghost all = views(entries@);
    let mut i: usize = 0;
    assert(before + env_args(all, 0) =~= before);
    while i < entries.len()
        invariant
            i <= entries.len(),
            all == views(entries@),
            views(args@) == before + env_args(all, i as nat),
        decreases entries.len() - i,
    {
        assert(all[i as int] == entries@[i as int]@);
        let word = vec!["--setenv"];
        assert(views(word@) =~= seq!["--setenv"@]);
        say(args, word);
        args.push(copy_bytes(entries[i].0.as_slice()));
        args.push(copy_bytes(entries[i].1.as_slice()));
        assert(views(args@) =~= before + env_args(all, (i + 1) as nat));
        i += 1;
    }
}

/// Where the program starts, and what it is started with.
pub open spec fn start_args(
    project: Seq<u8>,
    program: Seq<u8>,
    omp_args: Seq<Seq<u8>>,
) -> Seq<Seq<u8>> {
    said(seq!["--chdir"@]).push(project) + said(seq!["--"@]).push(program) + omp_args
}

fn copy_words(args: &mut Vec<Vec<u8>>, words: &[Vec<u8>])
    ensures
        views(final(args)@) == views(old(args)@) + views(words@),
{
    let ghost before = views(args@);
    let ghost all = views(words@);
    let mut i: usize = 0;
    assert(before + all.take(0) =~= before);
    while i < words.len()
        invariant
            i <= words.len(),
            all == views(words@),
            views(args@) == before + all.take(i as int),
        decreases words.len() - i,
    {
        assert(before + all.take(i + 1) =~= (before + all.take(i as int)).push(
            words@[i as int]@,
        ));
        args.push(copy_bytes(words[i].as_slice()));
        i += 1;
    }
    assert(all.take(all.len() as int) =~= all);
}

fn say_start(
    args: &mut Vec<Vec<u8>>,
    project: &HostPath,
    program: &HostPath,
    omp_args: &[Vec<u8>],
)
    ensures
        views(final(args)@) == views(old(args)@) + start_args(
            project@,
            program@,
            views(omp_args@),
        ),
{
    let ghost before = views(args@);
    let chdir = vec!["--chdir"];
    assert(views(chdir@) =~= seq!["--chdir"@]);
    say(args, chdir);
    say_path(args, project);
    let end = vec!["--"];
    assert(views(end@) =~= seq!["--"@]);
    say(args, end);
    say_path(args, program);
    copy_words(args, omp_args);
    assert(views(args@) =~= before + start_args(project@, program@, views(omp_args@)));
}

/// Everything up to the home directory and what overlays it.
pub open spec fn home_draft(spec: LaunchView, work: Seq<u8>) -> Draft {
    let made = with_parents(
        Draft { args: base_args(spec.state_dir, spec.uid), seen: Seq::empty() },
        spec.home,
    );
    Draft { args: made.args + home_args(spec.home, spec.state_dir, work), seen: made.seen }
}

/// What a launch may read.
pub open spec fn launch_roots(spec: LaunchView) -> Seq<Seq<u8>> {
    roots(spec.read_only + spec.omp.mount_roots)
}

/// The directory that holds the user's credentials and sessions.
pub open spec fn agent_dir(home: Seq<u8>) -> Seq<u8> {
    join(home, bytes_of(".omp/agent"@))
}

/// Everything up to the last mount: what may be read, then the agent directory,
/// then the project.
pub open spec fn mount_draft(spec: LaunchView, work: Seq<u8>) -> Draft {
    with_mount(
        with_mount(
            with_read_only(
                home_draft(spec, work),
                launch_roots(spec),
                spec.project,
                launch_roots(spec).len(),
            ),
            "--bind"@,
            agent_dir(spec.home),
        ),
        "--bind"@,
        spec.project,
    )
}

/// The command that a launch comes to.
pub open spec fn bwrap_command(
    spec: LaunchView,
    work: Seq<u8>,
    omp_args: Seq<Seq<u8>>,
) -> CommandView {
    let entries = listing_of(spec.environment);
    CommandView {
        program: spec.bwrap,
        args: mount_draft(spec, work).args + seal_args(spec.project) + env_args(
            entries,
            entries.len(),
        ) + start_args(spec.project, spec.omp.lexical_executable, omp_args),
    }
}

fn add_mounts(args: &mut Vec<Vec<u8>>, spec: &LaunchSpec, overlay_work_dir: &HostPath)
    requires
        views(old(args)@) == base_args(spec.state_dir@, spec.uid),
    ensures
        views(final(args)@) == mount_draft(spec@, overlay_work_dir@).args,
{
    let mut created_parents: Vec<HostPath> = Vec::new();
    assert(views(created_parents@) =~= Seq::empty());
    add_parent_dirs(args, &spec.home, &mut created_parents);
    say_home(args, &spec.home, &spec.state_dir, overlay_work_dir);
    let mut read_only = copy_paths(&spec.read_only);
    let mut runtime_roots = copy_paths(&spec.omp.mount_roots);
    read_only.append(&mut runtime_roots);
    let read_only = dedupe_roots(read_only);
    assert(views(read_only@).len() == read_only@.len());
    add_read_only(args, &read_only, &spec.project, &mut created_parents);
    // Credentials, leases and sessions are one store, so that they are shared
    // with the host as a whole.
    add_mount(args, "--bind", &spec.home.join_text(".omp/agent"), &mut created_parents);
    add_mount(args, "--bind", &spec.project, &mut created_parents);
}

/// Builds the command that a launch comes to.
pub fn build_bwrap_command(
    spec: &LaunchSpec,
    overlay_work_dir: &HostPath,
    omp_args: &[Vec<u8>],
) -> (r: BwrapCommand)
    ensures
        r@ == bwrap_command(spec@, overlay_work_dir@, views(omp_args@)),
{
    let mut args: Vec<Vec<u8>> = Vec::new();
    assert(views(args@) + base_args(spec.state_dir@, spec.uid) =~= base_args(
        spec.state_dir@,
        spec.uid,
    ));
    say_base(&mut args, &spec.state_dir, spec.uid);
    add_mounts(&mut args, spec, overlay_work_dir);
    say_seal(&mut args, &spec.project);
    let entries = spec.environment.entries();
    assert(views(entries@).len() == entries@.len());
    say_env(&mut args, entries);
    say_start(&mut args, &spec.project, &spec.omp.lexical_executable, omp_args);
    BwrapCommand { program: spec.bwrap.copy(), args }
}

/// A row of words stands in a command line from its `k`-th word on.
pub open spec fn stands_at(args: Seq<Seq<u8>>, row: Seq<Seq<u8>>, k: int) -> bool {
    &&& 0 <= k
    &&& k + row.len() <= args.len()
    &&& args.subrange(k, k + row.len()) == row
}

proof fn lemma_stands(front: Seq<Seq<u8>>, row: Seq<Seq<u8>>, back: Seq<Seq<u8>>)
    ensures
        stands_at(front + row + back, row, front.len() as int),
{
    assert((front + row + back).subrange(front.len() as int, (front.len() + row.len()) as int)
        =~= row);
}

proof fn lemma_stands_on(args: Seq<Seq<u8>>, row: Seq<Seq<u8>>, k: int, more: Seq<Seq<u8>>)
    requires
        stands_at(args, row, k),
    ensures
        stands_at(args + more, row, k),
{
    assert((args + more).subrange(k, k + row.len()) =~= args.subrange(k, k + row.len()));
}

/// One draft is another with words added at its end.
pub open spec fn grown_from(new: Draft, old_draft: Draft) -> bool {
    old_draft.args.is_prefix_of(new.args)
}

proof fn lemma_prefix_on(a: Seq<Seq<u8>>, b: Seq<Seq<u8>>, more: Seq<Seq<u8>>)
    requires
        a.is_prefix_of(b),
    ensures
        a.is_prefix_of(b + more),
{
    assert((b + more).subrange(0, a.len() as int) =~= b.subrange(0, a.len() as int));
}

proof fn lemma_prefix_of_itself(a: Seq<Seq<u8>>)
    ensures
        a.is_prefix_of(a),
{
    assert(a.subrange(0, a.len() as int) =~= a);
}

proof fn lemma_first_parents_grow(draft: Draft, upward: Seq<Seq<u8>>, n: nat)
    ensures
        grown_from(with_first_parents(draft, upward, n), draft),
    decreases n,
{
    lemma_prefix_of_itself(draft.args);
    if n > 0 {
        let first = with_parent(draft, upward[n - 1]);
        lemma_prefix_on(draft.args, draft.args, dir_args(upward[n - 1]));
        lemma_first_parents_grow(first, upward, (n - 1) as nat);
        let last = with_first_parents(draft, upward, n);
        assert(draft.args =~= last.args.subrange(0, draft.args.len() as int)) by {
            assert(first.args == last.args.subrange(0, first.args.len() as int));
            assert(draft.args == first.args.subrange(0, draft.args.len() as int));
            assert forall|i: int| 0 <= i < draft.args.len() implies draft.args[i]
                == last.args[i] by {
                assert(first.args.subrange(0, draft.args.len() as int)[i] == first.args[i]);
                assert(last.args.subrange(0, first.args.len() as int)[i] == last.args[i]);
            }
        }
    }
}

proof fn lemma_parents_grow(draft: Draft, destination: Seq<u8>)
    ensures
        grown_from(with_parents(draft, destination), draft),
{
    lemma_prefix_of_itself(draft.args);
    if let Some(p) = parent(destination) {
        lemma_first_parents_grow(draft, ancestors(p), ancestors(p).len());
    }
}

proof fn lemma_prefix_transitive(a: Seq<Seq<u8>>, b: Seq<Seq<u8>>, c: Seq<Seq<u8>>)
    requires
        a.is_prefix_of(b),
        b.is_prefix_of(c),
    ensures
        a.is_prefix_of(c),
{
    assert forall|i: int| 0 <= i < a.len() implies a[i] == c[i] by {
        assert(b.subrange(0, a.len() as int)[i] == b[i]);
        assert(c.subrange(0, b.len() as int)[i] == c[i]);
    }
    assert(a =~= c.subrange(0, a.len() as int));
}

proof fn lemma_mount_grows(draft: Draft, word: Seq<char>, p: Seq<u8>)
    ensures
        grown_from(with_mount(draft, word, p), draft),
        stands_at(
            with_mount(draft, word, p).args,
            mount_args(word, p),
            with_parents(draft, p).args.len() as int,
        ),
        draft.args.len() <= with_parents(draft, p).args.len(),
{
    let made = with_parents(draft, p);
    lemma_parents_grow(draft, p);
    lemma_prefix_on(draft.args, made.args, mount_args(word, p));
    lemma_stands(made.args, mount_args(word, p), Seq::empty());
    assert(made.args + mount_args(word, p) + Seq::empty() =~= made.args + mount_args(word, p));
}

proof fn lemma_stands_grown(old_draft: Draft, new: Draft, row: Seq<Seq<u8>>, k: int)
    requires
        grown_from(new, old_draft),
        stands_at(old_draft.args, row, k),
    ensures
        stands_at(new.args, row, k),
{
    let more = new.args.skip(old_draft.args.len() as int);
    assert(old_draft.args + more =~= new.args) by {
        assert forall|i: int| 0 <= i < old_draft.args.len() implies old_draft.args[i]
            == new.args[i] by {
            assert(new.args.subrange(0, old_draft.args.len() as int)[i] == new.args[i]);
        }
    }
    lemma_stands_on(old_draft.args, row, k, more);
}

proof fn lemma_read_only_grows(draft: Draft, paths: Seq<Seq<u8>>, project: Seq<u8>, n: nat)
    requires
        n <= paths.len(),
    ensures
        grown_from(with_read_only(draft, paths, project, n), draft),
        forall|i: int|
            0 <= i < n && !mounted_apart(#[trigger] paths[i], project) ==> exists|k: int| #[trigger]
                stands_at(
                    with_read_only(draft, paths, project, n).args,
                    mount_args("--ro-bind"@, paths[i]),
                    k,
                ),
    decreases n,
{
    lemma_prefix_of_itself(draft.args);
    if n > 0 {
        let m = (n - 1) as nat;
        let before = with_read_only(draft, paths, project, m);
        let after = with_read_only(draft, paths, project, n);
        lemma_read_only_grows(draft, paths, project, m);
        lemma_mount_grows(before, "--ro-bind"@, paths[n - 1]);
        lemma_prefix_of_itself(before.args);
        assert(grown_from(after, before));
        lemma_prefix_transitive(draft.args, before.args, after.args);
        assert forall|i: int|
            0 <= i < n && !mounted_apart(#[trigger] paths[i], project) implies exists|k: int|
            #[trigger] stands_at(after.args, mount_args("--ro-bind"@, paths[i]), k) by {
            if i < m {
                let k = choose|k: int| #[trigger]
                    stands_at(before.args, mount_args("--ro-bind"@, paths[i]), k);
                lemma_stands_grown(before, after, mount_args("--ro-bind"@, paths[i]), k);
            }
        }
    }
}

/// The words of a launch before its mounts are in place.
proof fn lemma_base_order(state_dir: Seq<u8>, uid: u32)
    ensures
        stands_at(base_args(state_dir, uid), lock_args(state_dir), 5),
        stands_at(base_args(state_dir, uid), said(scratch_words()), 12),
        base_args(state_dir, uid).len() > 12,
{
    let base = base_args(state_dir, uid);
    assert(said(isolation_words()).len() == 5);
    assert(lock_args(state_dir).len() == 7);
    assert(said(scratch_words()).len() == 23);
    assert(base.subrange(5, 12) =~= lock_args(state_dir));
    assert(base.subrange(12, 35) =~= said(scratch_words()));
}

proof fn lemma_home_order(spec: LaunchView, work: Seq<u8>) -> (home: int)
    ensures
        stands_at(home_draft(spec, work).args, lock_args(spec.state_dir), 5),
        stands_at(home_draft(spec, work).args, said(scratch_words()), 12),
        12 < home < home_draft(spec, work).args.len(),
        stands_at(
            home_draft(spec, work).args,
            home_args(spec.home, spec.state_dir, work),
            home,
        ),
{
    let start = Draft { args: base_args(spec.state_dir, spec.uid), seen: Seq::empty() };
    let made = with_parents(start, spec.home);
    let draft = home_draft(spec, work);
    let own = home_args(spec.home, spec.state_dir, work);
    lemma_base_order(spec.state_dir, spec.uid);
    lemma_parents_grow(start, spec.home);
    lemma_prefix_on(start.args, made.args, own);
    lemma_stands_grown(start, draft, lock_args(spec.state_dir), 5);
    lemma_stands_grown(start, draft, said(scratch_words()), 12);
    assert(dir_args(spec.home).len() == 4);
    lemma_stands(made.args, own, Seq::empty());
    assert(made.args + own + Seq::empty() =~= made.args + own);
    made.args.len() as int
}

/// The order on which a sandbox rests. The lock is taken before anything else is
/// in place. The home directory is emptied and overlaid before the agent
/// directory is shared, and that before the project. Then the project's own
/// state is hidden, the root closed and the environment cleared, and only then
/// are variables set. The program, with its own arguments word for word, comes
/// last.
pub proof fn law_command_order(spec: LaunchView, work: Seq<u8>, omp_args: Seq<Seq<u8>>)
    ensures
        exists|
            lock: int,
            scratch: int,
            home: int,
            agent: int,
            project: int,
            seal: int,
            vars: int,
            start: int,
        |
            lock < scratch < home < agent < project < seal < vars <= start && #[trigger] stands_at(
                bwrap_command(spec, work, omp_args).args,
                lock_args(spec.state_dir),
                lock,
            ) && #[trigger] stands_at(
                bwrap_command(spec, work, omp_args).args,
                said(scratch_words()),
                scratch,
            ) && #[trigger] stands_at(
                bwrap_command(spec, work, omp_args).args,
                home_args(spec.home, spec.state_dir, work),
                home,
            ) && #[trigger] stands_at(
                bwrap_command(spec, work, omp_args).args,
                mount_args("--bind"@, agent_dir(spec.home)),
                agent,
            ) && #[trigger] stands_at(
                bwrap_command(spec, work, omp_args).args,
                mount_args("--bind"@, spec.project),
                project,
            ) && #[trigger] stands_at(
                bwrap_command(spec, work, omp_args).args,
                seal_args(spec.project),
                seal,
            ) && #[trigger] stands_at(
                bwrap_command(spec, work, omp_args).args,
                env_args(listing_of(spec.environment), listing_of(spec.environment).len()),
                vars,
            ) && #[trigger] bwrap_command(spec, work, omp_args).args.skip(start) == start_args(
                spec.project,
                spec.omp.lexical_executable,
                omp_args,
            ),
{
    let entries = listing_of(spec.environment);
    let set = env_args(entries, entries.len());
    let sealed = seal_args(spec.project);
    let own = home_args(spec.home, spec.state_dir, work);
    let last = start_args(spec.project, spec.omp.lexical_executable, omp_args);
    let args = bwrap_command(spec, work, omp_args).args;
    let draft = home_draft(spec, work);
    let home = lemma_home_order(spec, work);
    let readable = with_read_only(
        draft,
        launch_roots(spec),
        spec.project,
        launch_roots(spec).len(),
    );
    lemma_read_only_grows(draft, launch_roots(spec), spec.project, launch_roots(spec).len());
    let shared = with_mount(readable, "--bind"@, agent_dir(spec.home));
    lemma_mount_grows(readable, "--bind"@, agent_dir(spec.home));
    let agent = with_parents(readable, agent_dir(spec.home)).args.len() as int;
    let mounted = mount_draft(spec, work);
    lemma_mount_grows(shared, "--bind"@, spec.project);
    let project = with_parents(shared, spec.project).args.len() as int;
    lemma_prefix_transitive(draft.args, readable.args, shared.args);
    lemma_prefix_transitive(draft.args, shared.args, mounted.args);
    lemma_stands_grown(draft, mounted, lock_args(spec.state_dir), 5);
    lemma_stands_grown(draft, mounted, said(scratch_words()), 12);
    lemma_stands_grown(draft, mounted, own, home);
    lemma_stands_grown(shared, mounted, mount_args("--bind"@, agent_dir(spec.home)), agent);
    let tail = sealed + set + last;
    assert(args =~= mounted.args + tail);
    lemma_stands_on(mounted.args, lock_args(spec.state_dir), 5, tail);
    lemma_stands_on(mounted.args, said(scratch_words()), 12, tail);
    lemma_stands_on(mounted.args, own, home, tail);
    lemma_stands_on(mounted.args, mount_args("--bind"@, agent_dir(spec.home)), agent, tail);
    lemma_stands_on(mounted.args, mount_args("--bind"@, spec.project), project, tail);
    let seal = mounted.args.len() as int;
    lemma_stands(mounted.args, sealed, set + last);
    assert(args =~= mounted.args + sealed + (set + last));
    let vars = (mounted.args.len() + sealed.len()) as int;
    lemma_stands(mounted.args + sealed, set, last);
    assert(args =~= mounted.args + sealed + set + last);
    let start = vars + set.len();
    assert(args.skip(start) =~= last);
    assert(sealed.len() > 0);
}

/// Every path that a launch may read is in its sandbox: it lies in the project,
/// or in the system's programs, or below a read-only mount of a path outside the
/// project.
pub proof fn law_readable_paths_are_mounted(
    spec: LaunchView,
    work: Seq<u8>,
    omp_args: Seq<Seq<u8>>,
    p: Seq<u8>,
)
    requires
        spec.read_only.contains(p) || spec.omp.mount_roots.contains(p),
    ensures
        is_under(p, spec.project) || is_under(p, bytes_of("/usr"@)) || exists|root: Seq<u8>, k: int|
            is_under(p, root) && !is_under(root, spec.project) && #[trigger] stands_at(
                bwrap_command(spec, work, omp_args).args,
                mount_args("--ro-bind"@, root),
                k,
            ),
{
    let wanted = spec.read_only + spec.omp.mount_roots;
    let all = launch_roots(spec);
    law_roots_cover(wanted);
    let i = if spec.read_only.contains(p) {
        spec.read_only.index_of(p)
    } else {
        spec.read_only.len() + spec.omp.mount_roots.index_of(p)
    };
    assert(wanted[i] == p);
    let n = choose|n: int| 0 <= n < all.len() && is_under(wanted[i], #[trigger] all[n]);
    let root = all[n];
    if is_under(root, spec.project) {
        lemma_under_transitive(p, root, spec.project);
    } else if same_path(root, bytes_of("/usr"@)) {
    } else {
        let home = home_draft(spec, work);
        let readable = with_read_only(home, all, spec.project, all.len());
        lemma_read_only_grows(home, all, spec.project, all.len());
        let k = choose|k: int| #[trigger]
            stands_at(readable.args, mount_args("--ro-bind"@, root), k);
        let shared = with_mount(readable, "--bind"@, agent_dir(spec.home));
        let mounted = mount_draft(spec, work);
        lemma_mount_grows(readable, "--bind"@, agent_dir(spec.home));
        lemma_mount_grows(shared, "--bind"@, spec.project);
        lemma_stands_grown(readable, shared, mount_args("--ro-bind"@, root), k);
        lemma_stands_grown(shared, mounted, mount_args("--ro-bind"@, root), k);
        let entries = listing_of(spec.environment);
        let tail = seal_args(spec.project) + env_args(entries, entries.len()) + start_args(
            spec.project,
            spec.omp.lexical_executable,
            omp_args,
        );
        assert(bwrap_command(spec, work, omp_args).args =~= mounted.args + tail);
        lemma_stands_on(mounted.args, mount_args("--ro-bind"@, root), k, tail);
    }
}

/// No directory on the way to a mount has been made twice.
pub open spec fn made_once(draft: Draft) -> bool {
    all_different(draft.seen)
}

proof fn lemma_first_parents_made(draft: Draft, upward: Seq<Seq<u8>>, n: nat)
    requires
        n <= upward.len(),
        made_once(draft),
    ensures
        made_once(with_first_parents(draft, upward, n)),
        draft.seen.is_prefix_of(with_first_parents(draft, upward, n).seen),
        forall|i: int|
            0 <= i < n ==> always_there(#[trigger] upward[i]) || is_known(
                with_first_parents(draft, upward, n).seen,
                upward[i],
            ),
    decreases n,
{
    lemma_prefix_of_itself(draft.seen);
    if n > 0 {
        let m = (n - 1) as nat;
        let p = upward[n - 1];
        let first = with_parent(draft, p);
        let last = with_first_parents(draft, upward, n);
        if always_there(p) || is_known(draft.seen, p) {
        } else {
            assert forall|i: int, j: int| 0 <= i < j < first.seen.len() implies components(
                #[trigger] first.seen[i],
            ) != components(#[trigger] first.seen[j]) by {
                if j == draft.seen.len() {
                    assert(!same_path(draft.seen[i], p));
                }
            }
            assert(same_path(first.seen[draft.seen.len() as int], p));
            assert(is_known(first.seen, p));
            lemma_prefix_on(draft.seen, draft.seen, seq![p]);
            assert(draft.seen + seq![p] =~= first.seen);
        }
        lemma_first_parents_made(first, upward, m);
        lemma_prefix_transitive(draft.seen, first.seen, last.seen);
        if is_known(first.seen, p) {
            let k = choose|k: int|
                0 <= k < first.seen.len() && same_path(#[trigger] first.seen[k], p);
            assert(last.seen.subrange(0, first.seen.len() as int)[k] == last.seen[k]);
            assert(same_path(last.seen[k], p));
            assert(is_known(last.seen, p));
        }
    }
}

/// Before a mount there is a directory at every step of the way to it, and no
/// such directory is made twice on the way to mounts.
pub proof fn law_mount_points_are_made(draft: Draft, word: Seq<char>, destination: Seq<u8>)
    requires
        made_once(draft),
    ensures
        made_once(with_mount(draft, word, destination)),
        parent(destination) matches Some(above) ==> forall|i: int|
            0 <= i < ancestors(above).len() ==> always_there(#[trigger] ancestors(above)[i])
                || is_known(with_mount(draft, word, destination).seen, ancestors(above)[i]),
{
    if let Some(above) = parent(destination) {
        lemma_first_parents_made(draft, ancestors(above), ancestors(above).len());
    }
}

/// From its `start`-th word on a command sets a variable of the environment three
/// times `j` words later, and to the value that it has there.
pub open spec fn sets_variable(
    args: Seq<Seq<u8>>,
    environment: Map<Seq<u8>, Seq<u8>>,
    start: int,
    j: int,
) -> bool {
    &&& args[start + 3 * j] == bytes_of("--setenv"@)
    &&& environment.dom().contains(args[start + 3 * j + 1])
    &&& args[start + 3 * j + 2] == environment[args[start + 3 * j + 1]]
}

/// The name of that variable.
pub open spec fn name_set(args: Seq<Seq<u8>>, start: int, j: int) -> Seq<u8> {
    args[start + 3 * j + 1]
}

proof fn lemma_env_length(entries: Seq<(Seq<u8>, Seq<u8>)>, n: nat)
    ensures
        env_args(entries, n).len() == 3 * n,
    decreases n,
{
    if n > 0 {
        lemma_env_length(entries, (n - 1) as nat);
        assert(said(seq!["--setenv"@]).len() == 1);
    }
}

proof fn lemma_env_row(entries: Seq<(Seq<u8>, Seq<u8>)>, n: nat, j: int)
    requires
        0 <= j < n <= entries.len(),
    ensures
        env_args(entries, n).subrange(3 * j, 3 * j + 3) == seq![
            bytes_of("--setenv"@),
            entries[j].0,
            entries[j].1,
        ],
    decreases n,
{
    let m = (n - 1) as nat;
    let all = env_args(entries, n);
    let front = env_args(entries, m);
    let row = seq![bytes_of("--setenv"@), entries[n - 1].0, entries[n - 1].1];
    assert(said(seq!["--setenv"@]) =~= seq![bytes_of("--setenv"@)]);
    assert(all =~= front + row);
    lemma_env_length(entries, n);
    lemma_env_length(entries, m);
    if j < m {
        lemma_env_row(entries, m, j);
        assert(all.subrange(3 * j, 3 * j + 3) =~= front.subrange(3 * j, 3 * j + 3));
    } else {
        assert(all.subrange(3 * j, 3 * j + 3) =~= row);
    }
}

/// The environment of a launch is what its program starts with. Right behind the
/// word that clears the environment, every variable is set once, in order of the
/// names and to its own value, and none besides; then the command enters the
/// project, and what it runs there is the OMP executable by the name it was found
/// under, with the given arguments and no others.
pub proof fn law_environment_is_set(spec: LaunchView, work: Seq<u8>, omp_args: Seq<Seq<u8>>)
    requires
        spec.environment.dom().finite(),
    ensures
        exists|start: int, n: int|
            #![trigger name_set(bwrap_command(spec, work, omp_args).args, start, n)]
            0 < start && 0 <= n && start + 3 * n + 4 + omp_args.len() == bwrap_command(
                spec,
                work,
                omp_args,
            ).args.len() && bwrap_command(spec, work, omp_args).args[start - 1] == bytes_of(
                "--clearenv"@,
            ) && (forall|j: int|
                0 <= j < n ==> #[trigger] sets_variable(
                    bwrap_command(spec, work, omp_args).args,
                    spec.environment,
                    start,
                    j,
                )) && (forall|i: int, j: int|
                0 <= i < j < n ==> bytes_less(
                    #[trigger] name_set(bwrap_command(spec, work, omp_args).args, start, i),
                    #[trigger] name_set(bwrap_command(spec, work, omp_args).args, start, j),
                )) && (forall|name: Seq<u8>| #[trigger]
                spec.environment.dom().contains(name) ==> exists|j: int|
                    0 <= j < n && #[trigger] name_set(
                        bwrap_command(spec, work, omp_args).args,
                        start,
                        j,
                    ) == name) && bwrap_command(spec, work, omp_args).args.skip(start + 3 * n)
                == seq![
                bytes_of("--chdir"@),
                spec.project,
                bytes_of("--"@),
                spec.omp.lexical_executable,
            ] + omp_args,
{
    let entries = listing_of(spec.environment);
    let n = entries.len() as int;
    let args = bwrap_command(spec, work, omp_args).args;
    let before = mount_draft(spec, work).args + seal_args(spec.project);
    let set = env_args(entries, entries.len());
    let last = start_args(spec.project, spec.omp.lexical_executable, omp_args);
    let start = before.len() as int;
    lemma_listing(spec.environment);
    lemma_listed(entries);
    lemma_env_length(entries, entries.len());
    assert(args =~= before + set + last);
    let end = said(seq!["--remount-ro"@, "/"@, "--clearenv"@]);
    assert(end[2] == bytes_of("--clearenv"@));
    assert(args[start - 1] == end[2]);
    assert(said(seq!["--chdir"@])[0] == bytes_of("--chdir"@));
    assert(said(seq!["--"@])[0] == bytes_of("--"@));
    assert(last =~= seq![
        bytes_of("--chdir"@),
        spec.project,
        bytes_of("--"@),
        spec.omp.lexical_executable,
    ] + omp_args);
    assert(args.skip(start + 3 * n) =~= last);
    assert forall|j: int| 0 <= j < n implies #[trigger] sets_variable(
        args,
        spec.environment,
        start,
        j,
    ) && name_set(args, start, j) == entries[j].0 by {
        lemma_env_row(entries, entries.len(), j);
        let row = set.subrange(3 * j, 3 * j + 3);
        assert(args[start + 3 * j] == row[0]);
        assert(args[start + 3 * j + 1] == row[1]);
        assert(args[start + 3 * j + 2] == row[2]);
    }
    assert forall|i: int, j: int| 0 <= i < j < n implies bytes_less(
        #[trigger] name_set(args, start, i),
        #[trigger] name_set(args, start, j),
    ) by {
        assert(sets_variable(args, spec.environment, start, i));
        assert(sets_variable(args, spec.environment, start, j));
        assert(bytes_less(entries[i].0, entries[j].0));
    }
    assert forall|name: Seq<u8>| #[trigger] spec.environment.dom().contains(name) implies exists|
        j: int,
    | 0 <= j < n && #[trigger] name_set(args, start, j) == name by {
        let j = choose|j: int| 0 <= j < entries.len() && (#[trigger] entries[j]).0 == name;
        assert(sets_variable(args, spec.environment, start, j));
        assert(name_set(args, start, j) == name);
    }
    assert(name_set(args, start, n) == name_set(args, start, n));
}

} // verus!
