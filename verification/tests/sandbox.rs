//! Commands, and runs with reports made up for them.
use sbox::bytes::text_bytes;
use sbox::env::Environment;
use sbox::error::Error;
use sbox::host::{Answer, HostFacts, Question, QuestionOf, ReplyOf, StatOf};
use sbox::path::HostPath;
use sbox::program::code_of;
use sbox::sandbox::{Act, ActOf, EntryOf, Progress, Report, Status};
use sbox::{build_bwrap_command, run_omp, LaunchSpec, Runtime};

fn path(text: &str) -> HostPath {
    HostPath::new(text)
}

fn fixture() -> LaunchSpec {
    let mut environment = Environment::new();
    environment.insert(text_bytes("HOME"), text_bytes("/home/u"));
    LaunchSpec {
        bwrap: path("/usr/bin/bwrap"),
        project: path("/home/u/project"),
        home: path("/home/u"),
        state_dir: path("/home/u/project/.sbox/state"),
        uid: 1000,
        omp: Runtime {
            lexical_executable: path("/home/u/.bin/omp"),
            canonical_executable: path("/home/u/pkg/omp.js"),
            mount_roots: vec![path("/home/u/pkg"), path("/home/u/.bin")],
            path_dirs: vec![path("/home/u/.bin")],
        },
        read_only: vec![path("/home/u/pkg/subdir"), path("/opt/context")],
        environment,
        warnings: Vec::new(),
    }
}

fn args_of(spec: &LaunchSpec, omp_args: &[Vec<u8>]) -> Vec<String> {
    build_bwrap_command(spec, &path("/work"), omp_args)
        .args
        .iter()
        .map(|arg| String::from_utf8_lossy(arg).into_owned())
        .collect()
}

#[test]
fn command_preserves_security_order_and_deduplicates_mounts() {
    let spec = fixture();
    let args = args_of(&spec, &[text_bytes("config")]);
    let index = |needle: &str| args.iter().position(|arg| arg == needle).unwrap();
    let project_bind = args
        .windows(3)
        .position(|window| window == ["--bind", "/home/u/project", "/home/u/project"])
        .unwrap();
    let agent_bind = args
        .windows(3)
        .position(|window| window == ["--bind", "/home/u/.omp/agent", "/home/u/.omp/agent"])
        .unwrap();
    assert!(index("--lock-file") < index("--proc"));
    assert!(index("--overlay") < agent_bind);
    assert!(agent_bind < project_bind);

    assert!(project_bind < index("--clearenv"));
    assert!(index("--clearenv") < index("--chdir"));
    assert_eq!(args.iter().filter(|arg| *arg == "/home/u/pkg").count(), 2);
    assert!(!args.iter().any(|arg| arg == "/home/u/pkg/subdir"));
    assert!(!args.iter().any(|arg| arg == "--new-session"));
}

#[test]
fn host_agent_state_is_shared_after_overlay() {
    let spec = fixture();
    let args = args_of(&spec, &[]);
    let agent_bind = args
        .windows(3)
        .position(|window| window == ["--bind", "/home/u/.omp/agent", "/home/u/.omp/agent"])
        .unwrap();
    let project_bind = args
        .windows(3)
        .position(|window| window == ["--bind", "/home/u/project", "/home/u/project"])
        .unwrap();
    assert!(agent_bind < project_bind);
}

#[test]
fn the_whole_command_is_as_expected() {
    let spec = fixture();
    assert_eq!(build_bwrap_command(&spec, &path("/work"), &[]).program, spec.bwrap);
    let args = args_of(&spec, &[text_bytes("config"), text_bytes("--bind")]);
    let mut expected = vec![
        "--unshare-user", "--unshare-all", "--share-net", "--disable-userns", "--die-with-parent",
        "--bind", "/home/u/project/.sbox/state/omp.lock", "/.sbox-omp.lock",
        "--lock-file", "/.sbox-omp.lock", "--remount-ro", "/.sbox-omp.lock",
        "--proc", "/proc", "--dev", "/dev",
        "--perms", "1777", "--tmpfs", "/tmp",
        "--perms", "1777", "--tmpfs", "/var/tmp",
        "--perms", "0555", "--dir", "/run", "--perms", "0555", "--dir", "/run/user",
        "--perms", "0700", "--tmpfs", "/run/user/1000",
        "--ro-bind", "/usr", "/usr",
        "--symlink", "usr/bin", "/bin",
        "--symlink", "usr/sbin", "/sbin",
        "--symlink", "usr/lib", "/lib",
        "--symlink", "usr/lib64", "/lib64",
        "--perms", "0555", "--dir", "/etc",
    ];
    let etc = [
        "passwd", "group", "nsswitch.conf", "resolv.conf", "hosts", "gai.conf", "localtime",
        "ld.so.cache", "ld.so.conf", "ld.so.conf.d", "pki", "ssl", "alternatives",
        "crypto-policies",
    ];
    let etc: Vec<String> = etc.iter().map(|name| format!("/etc/{name}")).collect();
    for file in &etc {
        expected.extend(["--ro-bind-try", file.as_str(), file.as_str()]);
    }
    expected.extend([
        "--perms", "0555", "--dir", "/home",
        "--perms", "0555", "--dir", "/home/u",
        "--overlay-src", "/home/u/.omp",
        "--overlay", "/home/u/project/.sbox/state/omp-upper", "/work", "/home/u/.omp",
        "--perms", "0555", "--dir", "/home/u",
        "--ro-bind", "/home/u/.bin", "/home/u/.bin",
        "--ro-bind", "/home/u/pkg", "/home/u/pkg",
        "--perms", "0555", "--dir", "/opt",
        "--ro-bind", "/opt/context", "/opt/context",
        "--perms", "0555", "--dir", "/home/u/.omp",
        "--bind", "/home/u/.omp/agent", "/home/u/.omp/agent",
        "--bind", "/home/u/project", "/home/u/project",
        "--perms", "0700", "--tmpfs", "/home/u/project/.sbox",
        "--remount-ro", "/home/u/project/.sbox", "--remount-ro", "/",
        "--clearenv", "--setenv", "HOME", "/home/u",
        "--chdir", "/home/u/project", "--", "/home/u/.bin/omp", "config", "--bind",
    ]);
    assert_eq!(args, expected);
}

#[test]
fn the_system_and_the_project_are_not_mounted_twice() {
    let mut spec = fixture();
    spec.read_only = vec![path("/usr"), path("/home/u/project/docs")];
    spec.omp.mount_roots = Vec::new();
    let args = args_of(&spec, &[]);
    assert_eq!(args.iter().filter(|arg| *arg == "--ro-bind").count(), 1);
    assert!(!args.iter().any(|arg| arg == "/home/u/project/docs"));
}

#[test]
fn arguments_need_not_be_text() {
    let spec = fixture();
    let opaque = vec![b'a', 0xff, b'z'];
    let command = build_bwrap_command(&spec, &path("/work"), &[opaque.clone()]);
    assert_eq!(command.args.last(), Some(&opaque));
}

fn fit_answer(question: &Question) -> Answer {
    match question {
        QuestionOf::ReadText(_) => Answer::Text(ReplyOf::Got("7".to_string())),
        QuestionOf::Stat(p) if *p == path("/home/u/.omp") => {
            Answer::Stat(StatOf::Directory(0o040700))
        }
        QuestionOf::Stat(p) if *p == path("/usr/bin/bwrap") => {
            Answer::Stat(StatOf::File(0o100755))
        }
        QuestionOf::Stat(_) => Answer::Stat(StatOf::Absent("no such file".to_string())),
        other => panic!("unexpected {:?}", other),
    }
}

/// Runs to the end, reporting what `report` says of each act.
fn run(
    spec: &LaunchSpec,
    report: impl Fn(&Act) -> Report,
) -> (Vec<Act>, Result<Status, Error>) {
    let mut checks = HostFacts::new();
    let mut reports: Vec<Report> = Vec::new();
    let mut acts: Vec<Act> = Vec::new();
    loop {
        match run_omp(spec, &[text_bytes("config")], &checks, &reports) {
            Progress::Ask(question) => panic!("unexpected {:?}", question),
            Progress::Check(question) => {
                let answer = fit_answer(&question);
                checks.record(question, answer);
            }
            Progress::Act(act) => {
                reports.push(report(&act));
                acts.push(act);
                assert!(acts.len() < 100);
            }
            Progress::Ended(result) => return (acts, result),
        }
    }
}

const WORK: &str = "/home/u/project/.sbox/state/omp-work-x";

/// A host on which everything goes well: the state directory has yet to be made,
/// and the work directory holds a directory, a file and a link.
fn well(act: &Act) -> Report {
    match act {
        ActOf::Inspect(p) => {
            let text = String::from_utf8(p.bytes.clone()).unwrap();
            Report::Entry(match text.as_str() {
                "/home/u/project/.sbox" => EntryOf::Missing("no such file".to_string()),
                "/home/u/project/.sbox/state/omp.lock" => {
                    EntryOf::Missing("no such file".to_string())
                }
                text if text.ends_with("/file") => EntryOf::File,
                text if text.ends_with("/link") => EntryOf::Symlink,
                text if text.ends_with("/pipe") => EntryOf::Other,
                _ => EntryOf::Directory,
            })
        }
        ActOf::Resolve(p) => Report::Path(p.clone()),
        ActOf::MakeTemp(_, _) => Report::Path(path(WORK)),
        ActOf::Launch(_) => Report::Exit(Status { code: Some(7), signal: None }),
        ActOf::List(p) if *p == path(WORK) => Report::Listing(vec![
            ReplyOf::Got(p.join_text("work")),
            ReplyOf::Got(p.join_text("link")),
            ReplyOf::Got(p.join_text("pipe")),
        ]),
        ActOf::List(p) => Report::Listing(vec![ReplyOf::Got(p.join_text("file"))]),
        _ => Report::Done,
    }
}

fn state(name: &str) -> HostPath {
    path("/home/u/project/.sbox/state").join_text(name)
}

#[test]
fn a_run_that_goes_well_does_everything_in_order() {
    let spec = fixture();
    let (acts, result) = run(&spec, well);
    assert_eq!(result.unwrap(), Status { code: Some(7), signal: None });
    let command = build_bwrap_command(&spec, &path(WORK), &[text_bytes("config")]);
    assert_eq!(
        acts,
        vec![
            ActOf::Inspect(path("/home/u/project/.sbox")),
            ActOf::MakeDir(path("/home/u/project/.sbox"), 0o700),
            ActOf::Inspect(path("/home/u/.omp/agent")),
            ActOf::SetMode(path("/home/u/.omp/agent"), 0o700),
            ActOf::Inspect(path("/home/u/project/.sbox/state")),
            ActOf::SetMode(path("/home/u/project/.sbox/state"), 0o700),
            ActOf::Inspect(state("omp-upper")),
            ActOf::SetMode(state("omp-upper"), 0o700),
            ActOf::Resolve(path("/home/u/project/.sbox/state")),
            ActOf::Inspect(state("omp.lock")),
            ActOf::MakeFile(state("omp.lock"), 0o600),
            ActOf::SetMode(state("omp.lock"), 0o600),
            ActOf::Lock(state("omp.lock")),
            ActOf::MakeTemp(path("/home/u/project/.sbox/state"), "omp-work-".to_string()),
            ActOf::SetMode(path(WORK), 0o700),
            ActOf::Launch(command),
            ActOf::Inspect(path(WORK)),
            ActOf::SetMode(path(WORK), 0o700),
            ActOf::List(path(WORK)),
            ActOf::Inspect(path(WORK).join_text("work")),
            ActOf::SetMode(path(WORK).join_text("work"), 0o700),
            ActOf::List(path(WORK).join_text("work")),
            ActOf::Inspect(path(WORK).join_text("work/file")),
            ActOf::SetMode(path(WORK).join_text("work/file"), 0o600),
            ActOf::Inspect(path(WORK).join_text("link")),
            ActOf::Inspect(path(WORK).join_text("pipe")),
            ActOf::SetMode(path(WORK).join_text("pipe"), 0o600),
            ActOf::Remove(path(WORK)),
        ]
    );
}

fn report_when(wanted: Act, told: Report) -> (Vec<Act>, String) {
    let (acts, result) = run(&fixture(), |act| if *act == wanted { told.clone() } else { well(act) });
    (acts, result.unwrap_err().report())
}

fn refused() -> Report {
    Report::Failed("refused".to_string())
}

#[test]
fn private_directories_are_made_or_kept_and_nothing_else_will_do() {
    let agent = path("/home/u/.omp/agent");
    let looked = |entry| report_when(ActOf::Inspect(agent.clone()), Report::Entry(entry)).1;
    assert_eq!(
        looked(EntryOf::Symlink),
        "sandbox state component /home/u/.omp/agent must not be a symlink"
    );
    assert_eq!(
        looked(EntryOf::File),
        "sandbox state component /home/u/.omp/agent is not a directory"
    );
    assert_eq!(
        looked(EntryOf::Other),
        "sandbox state component /home/u/.omp/agent is not a directory"
    );
    assert_eq!(
        looked(EntryOf::Unknown("refused".to_string())),
        "cannot inspect /home/u/.omp/agent: refused"
    );
    assert_eq!(
        report_when(ActOf::MakeDir(path("/home/u/project/.sbox"), 0o700), refused()).1,
        "cannot create private state directory /home/u/project/.sbox: refused"
    );
    assert_eq!(report_when(ActOf::SetMode(agent, 0o700), refused()).1, "refused");
}

#[test]
fn the_state_must_be_in_its_place() {
    let mut spec = fixture();
    spec.state_dir = path("/home/u/state");
    let (acts, result) = run(&spec, well);
    assert!(acts.is_empty());
    assert_eq!(
        result.unwrap_err().report(),
        "state directory /home/u/state must be exactly /home/u/project/.sbox/state"
    );
    let resolve = ActOf::Resolve(path("/home/u/project/.sbox/state"));
    assert_eq!(
        report_when(resolve.clone(), Report::Path(path("/elsewhere"))).1,
        "sandbox state /elsewhere escapes project /home/u/project"
    );
    assert_eq!(report_when(resolve, refused()).1, "refused");
}

#[test]
fn the_lock_must_be_a_file_that_can_be_locked() {
    let lock = "/home/u/project/.sbox/state/omp.lock";
    for entry in [EntryOf::Symlink, EntryOf::Directory, EntryOf::Other] {
        assert_eq!(
            report_when(ActOf::Inspect(path(lock)), Report::Entry(entry)).1,
            format!("state lock {lock} must be a regular file")
        );
    }
    assert_eq!(
        report_when(ActOf::MakeFile(path(lock), 0o600), refused()).1,
        format!("cannot create state lock {lock}: refused")
    );
    assert_eq!(report_when(ActOf::SetMode(path(lock), 0o600), refused()).1, "refused");
    assert_eq!(
        report_when(ActOf::Lock(path(lock)), Report::NotOpened("refused".to_string())).1,
        format!("cannot open state lock {lock}: refused")
    );
    let (acts, report) = report_when(ActOf::Lock(path(lock)), refused());
    assert_eq!(report, format!("cannot exclusively lock {lock}: refused"));
    assert!(!acts.iter().any(|act| matches!(act, ActOf::Launch(_))));
}

#[test]
fn a_work_directory_is_removed_whatever_happens() {
    let (acts, report) = report_when(
        ActOf::MakeTemp(path("/home/u/project/.sbox/state"), "omp-work-".to_string()),
        refused(),
    );
    assert_eq!(
        report,
        "cannot create OverlayFS work directory in /home/u/project/.sbox/state: refused"
    );
    assert!(!acts.contains(&ActOf::Discard(path(WORK))));

    let (acts, report) = report_when(ActOf::SetMode(path(WORK), 0o700), refused());
    assert_eq!(report, "refused");
    assert_eq!(acts.last(), Some(&ActOf::Discard(path(WORK))));
    assert!(!acts.iter().any(|act| matches!(act, ActOf::Launch(_))));

    let (acts, report) = report_when(ActOf::List(path(WORK)), refused());
    assert_eq!(report, "refused");
    assert_eq!(acts.last(), Some(&ActOf::Discard(path(WORK))));

    let (acts, report) = report_when(
        ActOf::List(path(WORK)),
        Report::Listing(vec![
            ReplyOf::Got(path(WORK).join_text("link")),
            ReplyOf::Failed("unreadable entry".to_string()),
        ]),
    );
    assert_eq!(report, "unreadable entry");
    assert!(acts.contains(&ActOf::Inspect(path(WORK).join_text("link"))));
    assert_eq!(acts.last(), Some(&ActOf::Discard(path(WORK))));

    let (_, report) = report_when(
        ActOf::Inspect(path(WORK).join_text("link")),
        Report::Entry(EntryOf::Missing("vanished".to_string())),
    );
    assert_eq!(report, "vanished");

    let (_, report) = report_when(ActOf::Remove(path(WORK)), refused());
    assert_eq!(report, "cannot remove temporary OverlayFS work directory: refused");
}

#[test]
fn a_failed_launch_is_what_is_reported() {
    let spec = fixture();
    let (acts, result) = run(&spec, |act| match act {
        ActOf::Launch(_) | ActOf::Remove(_) => refused(),
        _ => well(act),
    });
    assert_eq!(
        result.unwrap_err().report(),
        "failed to launch Bubblewrap /usr/bin/bwrap; required overlay isolation was not \
         weakened: refused"
    );
    assert_eq!(acts.iter().filter(|act| matches!(act, ActOf::Launch(_))).count(), 1);
    assert_eq!(acts.last(), Some(&ActOf::Remove(path(WORK))));
}

#[test]
fn a_report_that_answers_nothing_changes_nothing() {
    let spec = fixture();
    let mut checks = HostFacts::new();
    let mut reports: Vec<Report> = vec![Report::Done, Report::Path(path("/x"))];
    let act = loop {
        match run_omp(&spec, &[], &checks, &reports) {
            Progress::Check(question) => {
                let answer = fit_answer(&question);
                checks.record(question, answer);
            }
            Progress::Act(act) => break act,
            other => panic!("unexpected {:?}", other),
        }
    };
    assert_eq!(act, ActOf::Inspect(path("/home/u/project/.sbox")));
    reports.clear();
    match run_omp(&spec, &[], &HostFacts::new(), &reports) {
        Progress::Check(QuestionOf::ReadText(p)) => {
            assert_eq!(p, path("/proc/sys/user/max_user_namespaces"));
        }
        other => panic!("unexpected {:?}", other),
    }
}

#[test]
fn exit_codes_stand_for_codes_and_signals() {
    let code = |code, signal| code_of(Status { code, signal });
    assert_eq!(code(Some(0), None), 0);
    assert_eq!(code(Some(42), Some(9)), 42);
    assert_eq!(code(Some(255), None), 255);
    assert_eq!(code(Some(256), None), 1);
    assert_eq!(code(Some(-1), None), 1);
    assert_eq!(code(None, Some(9)), 137);
    assert_eq!(code(None, Some(15)), 143);
    assert_eq!(code(None, None), 129);
    assert_eq!(code(None, Some(i32::MAX)), 1);
}
