//! Decisions taken against a host that is held in memory.
use std::collections::BTreeMap;

use sbox::bytes::text_bytes;
use sbox::cli::{build_environment, resolve_directory, resolve_existing, valid_env_name, Cli};
use sbox::config::{
    consider_rule, load_user_policy, load_user_policy_at, user_config_path, ConfigFaultOf,
    ProjectRule, UserConfig, UserPolicy,
};
use sbox::env::HostEnv;
use sbox::error::Error;
use sbox::glob::{judge, nests_shallow, VerdictOf};
use sbox::host::{Answer, HostFacts, Question, QuestionOf, Reply, ReplyOf, Stat, StatOf, Stop, StopOf};
use sbox::layout::{
    add_declared_path, add_executable_layout, find_node_install, infer_runtime_root,
};
use sbox::mcp::{discover_mcp_mounts, resolve_executable, resolve_runtime};
use sbox::path::HostPath;
use sbox::preflight::preflight;
use sbox::resolve::{absolutize_lexical, ensure_executable};
use sbox::sandbox::{Progress, Report};
use sbox::shebang::{parse_shebang, read_shebang};
use sbox::{Discovery, LaunchSpec, McpDiscoveryPolicy, Runtime};

enum Node {
    Directory,
    File(Vec<u8>, u32),
    Link(String),
}

struct FakeHost {
    nodes: BTreeMap<String, Node>,
    unreadable: Vec<String>,
    current_dir: Reply<HostPath>,
}

fn missing() -> String {
    "No such file or directory (os error 2)".to_string()
}

fn text_of(path: &HostPath) -> String {
    String::from_utf8(path.bytes.clone()).unwrap()
}

fn path(text: &str) -> HostPath {
    HostPath::new(text)
}

impl FakeHost {
    fn new() -> FakeHost {
        let mut host = FakeHost {
            nodes: BTreeMap::new(),
            unreadable: Vec::new(),
            current_dir: ReplyOf::Got(path("/work")),
        };
        host.nodes.insert("/".to_string(), Node::Directory);
        host.mkdir("/work");
        host.executable("/usr/bin/env", "fixture env\n");
        host.executable("/usr/bin/true", "fixture true\n");
        host.executable("/usr/bin/python3", "fixture python\n");
        host.link("/bin", "usr/bin");
        host
    }

    fn mkdir(&mut self, path: &str) {
        let mut prefix = String::new();
        for name in path.split('/').filter(|name| !name.is_empty()) {
            prefix.push('/');
            prefix.push_str(name);
            self.nodes.entry(prefix.clone()).or_insert(Node::Directory);
        }
    }

    fn put(&mut self, path: &str, node: Node) {
        let (parent, _) = path.rsplit_once('/').unwrap();
        self.mkdir(parent);
        self.nodes.insert(path.to_string(), node);
    }

    fn write(&mut self, path: &str, contents: &str) {
        self.put(path, Node::File(contents.as_bytes().to_vec(), 0o100644));
    }

    fn executable(&mut self, path: &str, contents: &str) {
        self.put(path, Node::File(contents.as_bytes().to_vec(), 0o100755));
    }

    fn link(&mut self, path: &str, target: &str) {
        self.put(path, Node::Link(target.to_string()));
    }

    fn absolute(&self, path: &HostPath) -> String {
        let text = text_of(path);
        if text.starts_with('/') {
            text
        } else {
            match &self.current_dir {
                ReplyOf::Got(dir) => format!("{}/{}", text_of(dir), text),
                ReplyOf::Failed(_) => text,
            }
        }
    }

    fn canonical(&self, path: &HostPath) -> Option<String> {
        let mut rest: Vec<String> =
            self.absolute(path).split('/').rev().map(|name| name.to_string()).collect();
        let mut done: Vec<String> = Vec::new();
        while let Some(name) = rest.pop() {
            if name.is_empty() || name == "." {
                continue;
            }
            if name == ".." {
                done.pop();
                continue;
            }
            done.push(name);
            let here = format!("/{}", done.join("/"));
            match self.nodes.get(&here) {
                None => return None,
                Some(Node::Link(target)) => {
                    done.pop();
                    if target.starts_with('/') {
                        done.clear();
                    }
                    rest.extend(target.split('/').rev().map(|name| name.to_string()));
                }
                Some(Node::File(_, _)) if rest.iter().any(|name| !name.is_empty()) => return None,
                Some(_) => {}
            }
        }
        Some(format!("/{}", done.join("/")))
    }

    fn stat(&self, path: &HostPath) -> Stat {
        match self.canonical(path).and_then(|real| self.nodes.get(&real)) {
            Some(Node::Directory) => StatOf::Directory(0o040755),
            Some(Node::File(_, mode)) => StatOf::File(*mode),
            _ => StatOf::Absent(missing()),
        }
    }

    fn read(&self, path: &HostPath) -> Reply<Vec<u8>> {
        let real = match self.canonical(path) {
            Some(real) => real,
            None => return ReplyOf::Failed(missing()),
        };
        if self.unreadable.contains(&real) {
            return ReplyOf::Failed("Permission denied (os error 13)".to_string());
        }
        match self.nodes.get(&real) {
            Some(Node::File(bytes, _)) => ReplyOf::Got(bytes.clone()),
            _ => ReplyOf::Failed(missing()),
        }
    }

    fn config(&self, path: &HostPath) -> Result<UserConfig, ConfigFaultOf<String>> {
        let bytes = match self.read(path) {
            ReplyOf::Got(bytes) => bytes,
            ReplyOf::Failed(why) => return Err(ConfigFaultOf::Unreadable(why)),
        };
        let source = String::from_utf8(bytes).unwrap();
        let table: toml::Table = match toml::from_str(&source) {
            Ok(table) => table,
            Err(error) => return Err(ConfigFaultOf::Malformed(error.to_string())),
        };
        let mut project = Vec::new();
        for rule in table.get("project").and_then(|rules| rules.as_array()).into_iter().flatten() {
            let texts = |key: &str| -> Vec<String> {
                rule.get(key)
                    .and_then(|list| list.as_array())
                    .into_iter()
                    .flatten()
                    .map(|item| item.as_str().unwrap().to_string())
                    .collect()
            };
            project.push(ProjectRule {
                path: rule.get("path").unwrap().as_str().unwrap().to_string(),
                allow_read: texts("allow_read").iter().map(|item| HostPath::new(item)).collect(),
                pass_env: texts("pass_env"),
                strict_mcp: rule.get("strict_mcp").and_then(|on| on.as_bool()).unwrap_or(false),
            });
        }
        Ok(UserConfig { project })
    }

    fn answer(&self, question: &Question) -> Answer {
        match question {
            QuestionOf::Stat(p) => Answer::Stat(self.stat(p)),
            QuestionOf::Canonical(p) => Answer::Path(match self.canonical(p) {
                Some(real) => ReplyOf::Got(HostPath::new(&real)),
                None => ReplyOf::Failed(missing()),
            }),
            QuestionOf::Read(p) => Answer::Bytes(self.read(p)),
            QuestionOf::ReadText(p) => Answer::Text(match self.read(p) {
                ReplyOf::Got(bytes) => ReplyOf::Got(String::from_utf8(bytes).unwrap()),
                ReplyOf::Failed(why) => ReplyOf::Failed(why),
            }),
            QuestionOf::List(p) => {
                let real = match self.canonical(p) {
                    Some(real) => real,
                    None => return Answer::Listing(None),
                };
                let prefix = format!("{}/", real);
                let names = self
                    .nodes
                    .keys()
                    .filter(|key| key.starts_with(&prefix) && !key[prefix.len()..].contains('/'))
                    .map(|key| ReplyOf::Got(p.join_text(&key[prefix.len()..])))
                    .collect();
                Answer::Listing(Some(names))
            }
            QuestionOf::Owner(p) => Answer::Owner(match self.canonical(p) {
                Some(_) => ReplyOf::Got(1000),
                None => ReplyOf::Failed(missing()),
            }),
            QuestionOf::Config(p) => Answer::Config(self.config(p)),
            QuestionOf::CurrentDir => Answer::Path(self.current_dir.clone()),
        }
    }
}

/// Takes a decision, and answers what it asks until it is taken. No question
/// comes twice.
fn decide<T>(
    host: &FakeHost,
    decision: impl Fn(&HostFacts) -> Result<T, Stop>,
) -> Result<T, Error> {
    let mut facts = HostFacts::new();
    let mut asked: Vec<Question> = Vec::new();
    loop {
        match decision(&facts) {
            Ok(value) => return Ok(value),
            Err(StopOf::Fail(error)) => return Err(error),
            Err(StopOf::Ask(question)) => {
                assert!(!asked.contains(&question), "asked again: {:?}", question);
                asked.push(question.clone());
                let answer = host.answer(&question);
                facts.record(question, answer);
            }
        }
    }
}

struct Layout {
    host: FakeHost,
    home: String,
    project: String,
    mdb: String,
    node: String,
    ghidra: String,
    transient: String,
}

fn fixture_layout() -> Layout {
    let mut host = FakeHost::new();
    let root = "/tmp/fixture";
    let home = format!("{root}/home/user");
    let project = format!("{root}/project");
    let mdb = format!("{home}/temp/MDB-MCP");
    let node = format!("{home}/.local/share/fnm/node-versions/v24.13.0/installation");
    let ghidra = format!("{home}/.local/share/opencode/ghidra");
    let transient = format!("{root}/run/user/1000/fnm_multishells/session/bin");
    let python_site = format!("{home}/.local/lib/python3.14/site-packages");
    host.mkdir(&project);

    host.write(&format!("{mdb}/pyproject.toml"), "[project]\nname='mdb'\n");
    host.write(&format!("{mdb}/venv/pyvenv.cfg"), "home = fixture\n");
    host.executable(&format!("{mdb}/venv/bin/python"), "fixture binary\n");
    host.write(&format!("{mdb}/server.py"), "print('fixture')\n");

    host.executable(&format!("{node}/bin/node"), "fixture node\n");
    host.mkdir(&format!("{node}/lib/node_modules/@upstash/context7-mcp/dist"));
    host.write(&format!("{node}/lib/node_modules/@upstash/context7-mcp/package.json"), "{}");
    host.executable(
        &format!("{node}/lib/node_modules/@upstash/context7-mcp/dist/index.js"),
        "#!/usr/bin/env node-tool\n",
    );
    host.mkdir(&transient);
    host.link(&format!("{transient}/node-tool"), &format!("{node}/bin/node"));

    host.write(&format!("{ghidra}/bridge.py"), "print('fixture')\n");
    host.mkdir(&format!("{python_site}/mcp"));

    Layout { host, home, project, mdb, node, ghidra, transient }
}

fn discover(layout: &Layout, host_path: &str) -> Result<Discovery, Error> {
    decide(&layout.host, |facts| {
        discover_mcp_mounts(
            &path(&layout.home),
            &path(&layout.project),
            host_path.as_bytes(),
            facts,
        )
    })
}

#[test]
fn discovers_both_schemas_and_stable_runtime_roots() {
    let mut layout = fixture_layout();
    let omp = format!(
        r#"{{
            "disabledServers": ["disabled"],
            "mcpServers": {{
                "debugger-mcp": {{
                    "command": "{mdb}/venv/bin/python",
                    "args": ["{mdb}/server.py"]
                }},
                "disabled": {{"command": "/definitely/missing"}},
                "off": {{"command": "/also/missing", "enabled": false}}
            }}
        }}"#,
        mdb = layout.mdb
    );
    layout.host.write(&format!("{}/.omp/agent/mcp.json", layout.home), &omp);
    let opencode = format!(
        r#"{{
            "mcp": {{
                "context7": {{
                    "type": "local",
                    "command": ["{node}/lib/node_modules/@upstash/context7-mcp/dist/index.js"],
                    "enabled": true
                }},
                "ghidra": {{
                    "type": "local",
                    "command": ["/usr/bin/python3", "{ghidra}/bridge.py"],
                    "environment": {{"GHIDRA_MCP_URL": "http://127.0.0.1:8080"}}
                }},
                "remote": {{"type": "remote", "url": "https://example.invalid"}},
                "off": {{"type": "local", "command": ["/missing"], "enabled": false}}
            }}
        }}"#,
        node = layout.node,
        ghidra = layout.ghidra
    );
    layout.host.write(&format!("{}/.config/opencode/opencode.json", layout.home), &opencode);
    let host_path = layout.transient.clone();
    let discovery = discover(&layout, &host_path).unwrap();

    assert!(discovery.mount_roots.contains(&path(&layout.mdb)));
    assert!(discovery.mount_roots.contains(&path(&layout.node)));
    assert!(discovery.mount_roots.contains(&path(&layout.ghidra)));
    assert!(discovery
        .mount_roots
        .contains(&path(&layout.home).join_text(".local/lib/python3.14/site-packages")));
    assert!(!discovery
        .mount_roots
        .iter()
        .any(|root| root.starts_with(&path(&layout.transient))));
    assert!(discovery.path_dirs.contains(&path(&layout.node).join_text("bin")));
    assert!(discovery
        .mount_roots
        .contains(&path(&layout.home).join_text(".config/opencode")));
    assert!(discovery.warnings.is_empty());
}

#[test]
fn mounts_opencode_assets_without_an_mcp_configuration() {
    let mut layout = fixture_layout();
    let opencode = format!("{}/.config/opencode", layout.home);
    layout.host.mkdir(&format!("{opencode}/skills"));
    layout.host.write(&format!("{opencode}/skills/review.md"), "review instructions");

    let discovery = discover(&layout, "/usr/bin:/bin").unwrap();

    assert_eq!(discovery.mount_roots, [path(&opencode)]);
    assert!(discovery.path_dirs.is_empty());
}

#[test]
fn reports_missing_local_runtime_with_server_and_source() {
    let mut layout = fixture_layout();
    let source = format!("{}/.omp/agent/mcp.json", layout.home);
    layout.host.write(&source, r#"{"mcpServers": {"broken": {"command": "not-present"}}}"#);
    let error = discover(&layout, "/usr/bin:/bin").unwrap_err();
    assert!(error.message().contains("broken"));
    assert!(error.message().contains(&source));
    assert_eq!(
        error.report(),
        format!(
            "MCP server broken in {source} cannot resolve its command: \
             executable \"not-present\" was not found on PATH"
        )
    );
}

#[test]
fn reports_unresolved_shebang_with_server_and_source() {
    let mut layout = fixture_layout();
    let script = format!("{}/server/run", layout.home);
    layout.host.executable(&script, "#!/usr/bin/env absent-interpreter\n");
    let source = format!("{}/.omp/agent/mcp.json", layout.home);
    layout.host.write(
        &source,
        &format!(r#"{{"mcpServers": {{"broken-shebang": {{"command": "{script}"}}}}}}"#),
    );
    let error = discover(&layout, "/usr/bin:/bin").unwrap_err().message();
    assert!(error.contains("broken-shebang"));
    assert!(error.contains(&source));
}

#[test]
fn rejects_root_home_and_entire_user_home_inference() {
    let mut layout = fixture_layout();
    let manifest = format!("{}/package.json", layout.home);
    layout.host.write(&manifest, "{}");
    layout.host.mkdir("/home");
    let source = format!("{}/.omp/agent/mcp.json", layout.home);
    let home = layout.home.clone();
    for broad in ["/", "/home", home.as_str()] {
        layout.host.write(
            &source,
            &format!(
                r#"{{"mcpServers": {{"broad": {{"command": "/usr/bin/true", "args": ["{broad}"]}}}}}}"#
            ),
        );
        let error = discover(&layout, "/usr/bin:/bin").unwrap_err().report();
        assert!(error.contains("broad"));
        assert!(error.contains("refusing inferred broad mount"), "{broad:?}: {error}");
    }
}

#[test]
fn preserves_lexical_symlink_while_mounting_canonical_install() {
    let layout = fixture_layout();
    let runtime = decide(&layout.host, |facts| {
        resolve_runtime(b"node-tool", layout.transient.as_bytes(), &path(&layout.home), facts)
    })
    .unwrap();
    assert_eq!(runtime.lexical_executable, path(&layout.transient).join_text("node-tool"));
    assert_eq!(runtime.canonical_executable, path(&layout.node).join_text("bin/node"));
    assert_eq!(runtime.mount_roots, [path(&layout.node)]);
    assert_eq!(runtime.path_dirs, [runtime.mount_roots[0].join_text("bin")]);
}

fn report_for(config: &str) -> String {
    let mut layout = fixture_layout();
    let source = format!("{}/.omp/agent/mcp.json", layout.home);
    layout.host.write(&source, config);
    discover(&layout, "/usr/bin").unwrap_err().report().replace(&source, "SOURCE")
}

#[test]
fn omp_entries_are_checked_field_by_field() {
    let server = |fields: &str| report_for(&format!(r#"{{"mcpServers": {{"s": {fields}}}}}"#));
    assert_eq!(report_for("[]"), "trusted MCP config SOURCE must be a JSON object");
    assert_eq!(
        report_for(r#"{"disabledServers": 1}"#),
        "disabledServers in SOURCE must be an array"
    );
    assert_eq!(
        report_for(r#"{"disabledServers": [1]}"#),
        "disabledServers in SOURCE must contain strings"
    );
    assert_eq!(report_for(r#"{"mcpServers": []}"#), "mcpServers in SOURCE must be an object");
    assert_eq!(server("1"), "MCP server s in SOURCE must be an object");
    assert_eq!(
        server(r#"{"enabled": "yes"}"#),
        "enabled for MCP server s in SOURCE must be boolean"
    );
    assert_eq!(server("{}"), "MCP server s in SOURCE has no command");
    assert_eq!(
        server(r#"{"command": []}"#),
        "command for MCP server s in SOURCE must be a string"
    );
    assert_eq!(
        server(r#"{"command": "x", "args": "y"}"#),
        "args for MCP server s in SOURCE must be an array"
    );
    assert_eq!(
        server(r#"{"command": "x", "args": [null]}"#),
        "args for MCP server s in SOURCE must contain strings"
    );
    assert_eq!(
        server(r#"{"command": "x", "env": []}"#),
        "env for MCP server s in SOURCE must be an object"
    );
    assert_eq!(
        server(r#"{"command": "x", "cwd": 1}"#),
        "cwd for MCP server s in SOURCE must be a string"
    );
    assert_eq!(
        server(r#"{"command": "x", "cwd": "here"}"#),
        "cwd for MCP server s in SOURCE must be absolute"
    );
}

#[test]
fn malformed_documents_are_reported_in_the_words_of_the_parser() {
    let report = report_for("{");
    assert!(report.starts_with("malformed trusted MCP config SOURCE: EOF while parsing an object"));
    let parsed = sbox::json::parse(br#"{"b": [true, null, "x"], "a": {}}"#).unwrap();
    assert_eq!(
        format!("{:?}", parsed),
        format!("{:?}", sbox::json::parse(br#"{"a":{},"b":[true,null,"x"]}"#).unwrap())
    );
    assert!(sbox::json::parse(b"nonsense").is_err());
}

#[test]
fn opencode_entries_are_checked_field_by_field() {
    let report = |config: &str| {
        let mut layout = fixture_layout();
        let source = format!("{}/.config/opencode/opencode.json", layout.home);
        layout.host.write(&source, config);
        discover(&layout, "/usr/bin").unwrap_err().report().replace(&source, "SOURCE")
    };
    let server = |fields: &str| report(&format!(r#"{{"mcp": {{"s": {fields}}}}}"#));
    assert_eq!(report(r#"{"mcp": 1}"#), "mcp in SOURCE must be an object");
    assert_eq!(server("null"), "MCP server s in SOURCE must be an object");
    assert_eq!(
        server(r#"{"enabled": 0}"#),
        "enabled for MCP server s in SOURCE must be boolean"
    );
    assert_eq!(server(r#"{"type": 1}"#), "MCP server s in SOURCE has no string type");
    assert_eq!(
        server(r#"{"type": "local", "environment": 1}"#),
        "environment for MCP server s in SOURCE must be an object"
    );
    assert_eq!(
        server(r#"{"type": "local", "command": []}"#),
        "command for MCP server s in SOURCE must be a non-empty string array"
    );
    assert_eq!(
        server(r#"{"type": "local", "command": ["x", 1]}"#),
        "command for MCP server s in SOURCE must contain only strings"
    );
}

#[test]
fn entries_that_are_off_or_remote_need_nothing() {
    let mut layout = fixture_layout();
    layout.host.write(
        &format!("{}/.omp/agent/mcp.json", layout.home),
        r#"{
            "disabledServers": ["gone"],
            "mcpServers": {
                "gone": 17,
                "off": {"enabled": false, "command": 17},
                "remote": {"url": "https://example.invalid"}
            }
        }"#,
    );
    layout.host.write(
        &format!("{}/.config/opencode/opencode.json", layout.home),
        r#"{"mcp": {"remote": {"type": "remote"}, "off": {"enabled": false}}}"#,
    );
    let discovery = discover(&layout, "/usr/bin").unwrap();
    assert_eq!(discovery.mount_roots, [path(&layout.home).join_text(".config/opencode")]);
    assert!(discovery.path_dirs.is_empty());
    assert_eq!(Discovery::default().mount_roots.len(), 0);
}

#[test]
fn servers_that_cannot_be_run_are_failures_under_either_policy() {
    let mut layout = fixture_layout();
    layout.host.write(
        &format!("{}/.omp/agent/mcp.json", layout.home),
        r#"{"mcpServers": {"broken": {"command": "not-present"}}}"#,
    );
    for strict in [true, false] {
        let error = decide(&layout.host, |facts| {
            sbox::discover_mcp_mounts_with_policy(
                &path(&layout.home),
                &path(&layout.project),
                b"/usr/bin",
                McpDiscoveryPolicy { strict },
                facts,
            )
        })
        .unwrap_err();
        assert!(error.message().contains("cannot resolve its command"));
    }
    assert_eq!(McpDiscoveryPolicy::default(), McpDiscoveryPolicy { strict: false });
}

#[test]
fn declared_paths_must_exist_and_may_lie_in_the_project() {
    let mut layout = fixture_layout();
    let inside = format!("{}/tool", layout.project);
    layout.host.write(&inside, "plain");
    let declared = |layout: &Layout, p: &str| {
        decide(&layout.host, |facts| {
            add_declared_path(&path(p), &path(&layout.home), &path(&layout.project), facts)
        })
    };
    assert!(declared(&layout, &inside).unwrap().roots.is_empty());
    assert_eq!(
        declared(&layout, "/nowhere").unwrap_err().report(),
        "configured path /nowhere does not exist"
    );
    let data = format!("{}/data/set", layout.home);
    layout.host.mkdir(&data);
    assert_eq!(
        declared(&layout, &data).unwrap().roots,
        [path(&layout.home).join_text("data")]
    );
}

#[test]
fn server_failures_tell_where_they_come_from() {
    let server = |fields: &str| report_for(&format!(r#"{{"mcpServers": {{"s": {fields}}}}}"#));
    assert_eq!(
        server(r#"{"command": "/usr/bin/true", "cwd": "/nowhere"}"#),
        "invalid cwd for MCP server s in SOURCE: configured path /nowhere does not exist"
    );
    assert_eq!(
        server(r#"{"command": "/usr/bin/true", "args": ["/nowhere"]}"#),
        "invalid path argument /nowhere for MCP server s in SOURCE: \
         configured path /nowhere does not exist"
    );
    assert_eq!(
        server(r#"{"command": "/usr/bin/absent"}"#),
        "MCP server s in SOURCE cannot resolve its command: \
         executable /usr/bin/absent does not exist: No such file or directory (os error 2)"
    );
    assert_eq!(
        server(r#"{"command": "/usr/bin"}"#),
        "MCP server s in SOURCE cannot resolve its command: /usr/bin is not an executable file"
    );
}

#[test]
fn an_executable_directly_in_the_home_is_too_broad() {
    let mut layout = fixture_layout();
    let tool = format!("{}/tool", layout.home);
    layout.host.executable(&tool, "fixture");
    let source = format!("{}/.omp/agent/mcp.json", layout.home);
    layout.host.write(
        &source,
        &format!(r#"{{"mcpServers": {{"s": {{"command": "{tool}"}}}}}}"#),
    );
    assert_eq!(
        discover(&layout, "/usr/bin").unwrap_err().report(),
        format!(
            "unsafe runtime inferred for MCP server s in {source}: refusing inferred broad mount \
             {}; use --allow-read with a narrower path",
            layout.home
        )
    );
}

#[test]
fn commands_are_searched_in_order() {
    let mut host = FakeHost::new();
    host.write("/first/tool", "not executable");
    host.executable("/second/tool", "fixture");
    host.executable("/third/tool", "fixture");
    let find = |host: &FakeHost, command: &[u8], cwd: Option<HostPath>| {
        decide(host, |facts| {
            resolve_executable(command, b"/first:/second:/third", cwd.as_ref(), facts)
        })
    };
    assert_eq!(find(&host, b"tool", None).unwrap(), path("/second/tool"));
    assert_eq!(find(&host, b"./tool", Some(path("/third"))).unwrap(), path("/third/./tool"));
    assert_eq!(
        find(&host, b"absent", None).unwrap_err().report(),
        "executable \"absent\" was not found on PATH"
    );
    host.executable("/work/here", "fixture");
    assert_eq!(find(&host, b"./here", None).unwrap(), path("/work/././here"));
    host.current_dir = ReplyOf::Failed("gone".to_string());
    let error = decide(&host, |facts| absolutize_lexical(&path("x"), facts)).unwrap_err();
    assert_eq!(error.report(), "gone");
    assert_eq!(
        decide(&host, |facts| ensure_executable(&path("/first/tool"), facts)).unwrap_err().report(),
        "/first/tool is not an executable file"
    );
}

#[test]
fn runtime_roots_go_from_the_strongest_sign_to_the_weakest() {
    let layout = fixture_layout();
    let root = |p: String| {
        decide(&layout.host, |facts| infer_runtime_root(&path(&p), facts)).unwrap()
    };
    assert_eq!(root(format!("{}/bin/node", layout.node)), Some(path(&layout.node)));
    assert_eq!(
        root(format!("{}/venv/bin/python", layout.mdb)),
        Some(path(&layout.mdb).join_text("venv"))
    );
    assert_eq!(root(format!("{}/server.py", layout.mdb)), Some(path(&layout.mdb)));
    assert_eq!(root(format!("{}/bridge.py", layout.ghidra)), Some(path(&layout.ghidra)));
    assert_eq!(root("/".to_string()), None);
    let install = decide(&layout.host, |facts| {
        find_node_install(&path(&layout.node).join_text("share/doc"), facts)
    });
    assert_eq!(install.unwrap(), None);
}

#[test]
fn first_lines_of_scripts_are_read() {
    let script = path("/script");
    let read = |bytes: &[u8]| parse_shebang(&script, bytes);
    assert_eq!(read(b"plain").unwrap(), None);
    let env = read(b"#! /usr/bin/env -S -i python3 -u\nrest").unwrap().unwrap();
    assert_eq!(env.interpreter, path("/usr/bin/env"));
    assert_eq!(env.args, [b"python3".to_vec(), b"-u".to_vec()]);
    let direct = read(b"#!/bin/sh -e\r\n").unwrap().unwrap();
    assert_eq!(direct.args, [b"-e".to_vec()]);
    assert_eq!(read(b"#! \t\n").unwrap_err().report(), "empty shebang in /script");
    assert_eq!(
        read(b"#!python3\n").unwrap_err().report(),
        "relative shebang interpreter in /script"
    );
    let host = FakeHost::new();
    assert_eq!(decide(&host, |facts| read_shebang(&path("/usr"), facts)).unwrap(), None);
}

#[test]
fn scripts_that_cannot_be_followed_name_their_server() {
    let with_script = |line: &str, unreadable: bool| {
        let mut layout = fixture_layout();
        let script = format!("{}/server/run", layout.home);
        layout.host.executable(&script, line);
        if unreadable {
            layout.host.unreadable.push(script.clone());
        }
        let source = format!("{}/.omp/agent/mcp.json", layout.home);
        layout.host.write(
            &source,
            &format!(r#"{{"mcpServers": {{"s": {{"command": "{script}"}}}}}}"#),
        );
        let report = discover(&layout, "/usr/bin").unwrap_err().report();
        report.replace(&source, "SOURCE").replace(&script, "SCRIPT")
    };
    assert_eq!(
        with_script("#!/usr/bin/env\n", false),
        "MCP server s in SOURCE has an env shebang without an interpreter"
    );
    assert_eq!(
        with_script("#!/opt/absent\n", false),
        "MCP server s in SOURCE has unresolved shebang interpreter /opt/absent: \
         executable /opt/absent does not exist: No such file or directory (os error 2)"
    );
    assert_eq!(
        with_script("#!\n", false),
        "cannot inspect shebang for MCP server s in SOURCE: SCRIPT: empty shebang in SCRIPT"
    );
    assert_eq!(
        with_script("#!/bin/sh\n", true),
        "cannot inspect shebang for MCP server s in SOURCE: SCRIPT: \
         Permission denied (os error 13)"
    );
}

fn env_of(entries: &[(&str, &str)]) -> HostEnv {
    HostEnv {
        variables: entries
            .iter()
            .map(|(name, value)| (text_bytes(name), text_bytes(value)))
            .collect(),
    }
}

#[test]
fn validates_shell_environment_names() {
    for valid in ["A", "_A", "CONTEXT7_TOKEN_2"] {
        assert!(valid_env_name(valid.as_bytes()));
    }
    for invalid in ["", "2BAD", "BAD-NAME", "BAD=VALUE"] {
        assert!(!valid_env_name(invalid.as_bytes()));
    }
}

#[test]
fn missing_pass_env_error_names_only_the_variable() {
    let name = "SBOX_TEST_VARIABLE_THAT_MUST_NOT_EXIST_6E2A";
    let error = build_environment(
        &path("/home/test"),
        &path("/project"),
        1000,
        &Vec::new(),
        &vec![text_bytes(name)],
        &env_of(&[]),
    )
    .unwrap_err()
    .message();
    assert!(error.contains(name));
    assert!(!error.contains('='));
    assert_eq!(error, format!("requested environment variable \"{name}\" is not set"));
}

fn environment_of(
    env: &HostEnv,
    path_dirs: &[&str],
    pass_env: &[&str],
) -> Result<Vec<(String, String)>, Error> {
    let built = build_environment(
        &path("/home/test"),
        &path("/project"),
        1000,
        &path_dirs.iter().map(|dir| path(dir)).collect(),
        &pass_env.iter().map(|name| text_bytes(name)).collect(),
        env,
    )?;
    Ok(built
        .entries()
        .iter()
        .map(|(name, value)| {
            (String::from_utf8(name.clone()).unwrap(), String::from_utf8(value.clone()).unwrap())
        })
        .collect())
}

#[test]
fn environment_has_defaults_for_what_the_process_lacks() {
    let built = environment_of(&env_of(&[]), &["/opt/tool/bin"], &[]).unwrap();
    let expected = [
        ("COLORTERM", "truecolor"),
        ("HOME", "/home/test"),
        ("LANG", "C.UTF-8"),
        ("LOGNAME", "user"),
        ("PATH", "/bin:/opt/tool/bin:/usr/bin"),
        ("PI_CONFIG_DIR", ".omp"),
        ("PWD", "/project"),
        ("SHELL", "/bin/sh"),
        ("TERM", "xterm-256color"),
        ("USER", "user"),
        ("XDG_RUNTIME_DIR", "/run/user/1000"),
    ];
    let expected: Vec<(String, String)> =
        expected.iter().map(|(name, value)| (name.to_string(), value.to_string())).collect();
    assert_eq!(built, expected);
}

#[test]
fn environment_is_closed_but_for_what_is_handed_on() {
    let env = env_of(&[
        ("USER", "ada"),
        ("SECRET", "hidden"),
        ("LC_TIME", "C"),
        ("HTTP_PROXY", "http://proxy"),
        ("SERVICE_TOKEN", "t0ken"),
        ("HOME", "/elsewhere"),
    ]);
    let built = environment_of(&env, &[], &["SERVICE_TOKEN"]).unwrap();
    let value = |name: &str| {
        built.iter().find(|(key, _)| key == name).map(|(_, value)| value.as_str())
    };
    assert_eq!(value("USER"), Some("ada"));
    assert_eq!(value("LOGNAME"), Some("ada"));
    assert_eq!(value("SECRET"), None);
    assert_eq!(value("LC_TIME"), Some("C"));
    assert_eq!(value("HTTP_PROXY"), Some("http://proxy"));
    assert_eq!(value("SERVICE_TOKEN"), Some("t0ken"));
    assert_eq!(value("HOME"), Some("/home/test"));
    assert_eq!(value("PATH"), Some("/bin:/usr/bin"));
}

#[test]
fn environment_refuses_bad_names_and_bad_directories() {
    assert_eq!(
        environment_of(&env_of(&[]), &[], &["BAD-NAME"]).unwrap_err().report(),
        "invalid environment variable name \"BAD-NAME\""
    );
    assert_eq!(
        environment_of(&env_of(&[]), &["/a:b"], &[]).unwrap_err().report(),
        "sandbox PATH contains an invalid directory: path segment contains separator `:`"
    );
}

fn launch_fixture() -> (FakeHost, Cli, HostEnv) {
    let mut host = FakeHost::new();
    host.mkdir("/home/u/project");
    host.mkdir("/home/u/.omp");
    host.write("/home/u/project/notes/a.txt", "inside");
    host.write("/srv/context/a.txt", "outside");
    host.executable("/usr/bin/bwrap", "fixture");
    host.executable("/home/u/pkg/omp", "fixture");
    host.write("/home/u/pkg/package.json", "{}");
    let cli = Cli {
        project: path("/home/u/project"),
        allow_read: vec![path("/srv/context/../context"), path("/home/u/project/notes")],
        pass_env: Vec::new(),
        strict_mcp: false,
        omp_args: vec![text_bytes("config")],
    };
    let env = env_of(&[("PATH", "/home/u/pkg:/usr/bin"), ("HOME", "/home/u")]);
    (host, cli, env)
}

fn launch(host: &FakeHost, cli: &Cli, env: &HostEnv) -> Result<LaunchSpec, Error> {
    decide(host, |facts| cli.launch_spec(env, facts))
}

#[test]
fn a_launch_is_worked_out_from_the_command_line() {
    let (host, cli, env) = launch_fixture();
    let spec = launch(&host, &cli, &env).unwrap();
    assert_eq!(spec.bwrap, path("/usr/bin/bwrap"));
    assert_eq!(spec.project, path("/home/u/project"));
    assert_eq!(spec.home, path("/home/u"));
    assert_eq!(spec.state_dir, path("/home/u/project/.sbox/state"));
    assert_eq!(spec.uid, 1000);
    assert_eq!(
        spec.omp,
        Runtime {
            lexical_executable: path("/home/u/pkg/omp"),
            canonical_executable: path("/home/u/pkg/omp"),
            mount_roots: vec![path("/home/u/pkg")],
            path_dirs: vec![path("/home/u/pkg")],
        }
    );
    assert_eq!(spec.read_only, [path("/home/u/pkg"), path("/srv/context")]);
    assert_eq!(
        spec.environment.get(b"PATH"),
        Some(&text_bytes("/bin:/home/u/pkg:/usr/bin"))
    );
    assert!(spec.warnings.is_empty());
}

#[test]
fn a_launch_fails_on_whatever_is_missing_first() {
    let (host, cli, _) = launch_fixture();
    let report = |env: &[(&str, &str)]| launch(&host, &cli, &env_of(env)).unwrap_err().report();
    assert_eq!(report(&[]), "PATH is not set");
    assert_eq!(report(&[("PATH", "/usr/bin")]), "HOME is not set");
    assert_eq!(
        report(&[("PATH", "/usr/bin"), ("HOME", "u")]),
        "HOME must be an absolute path"
    );
    assert_eq!(
        report(&[("PATH", "/usr/bin"), ("HOME", "/home/absent")]),
        "cannot resolve HOME /home/absent: No such file or directory (os error 2)"
    );
    assert_eq!(
        report(&[("PATH", "/nowhere"), ("HOME", "/home/u")]),
        "cannot resolve required Bubblewrap executable: \
         executable \"bwrap\" was not found on PATH"
    );
    assert_eq!(
        report(&[("PATH", "/usr/bin"), ("HOME", "/home/u")]),
        "cannot resolve required OMP runtime: cannot resolve executable \"omp\": \
         executable \"omp\" was not found on PATH"
    );
}

#[test]
fn a_launch_checks_the_paths_that_it_is_given() {
    let (host, cli, env) = launch_fixture();
    let with = |project: &str, allow_read: &str| {
        let cli = Cli {
            project: path(project),
            allow_read: vec![path(allow_read)],
            ..cli.clone()
        };
        launch(&host, &cli, &env)
    };
    assert_eq!(
        with("/home/u/absent", "/srv").unwrap_err().report(),
        "cannot resolve project /home/u/absent: No such file or directory (os error 2)"
    );
    assert_eq!(
        with("/srv/context/a.txt", "/srv").unwrap_err().report(),
        "project /srv/context/a.txt is not a directory"
    );
    assert_eq!(
        with("/home/u/project", "/absent").unwrap_err().report(),
        "cannot resolve --allow-read path /absent: No such file or directory (os error 2)"
    );
    assert_eq!(
        decide(&host, |facts| resolve_existing(&path("/bin"), "tool", facts)).unwrap(),
        path("/usr/bin")
    );
    assert_eq!(
        decide(&host, |facts| resolve_directory(&path("/bin"), "tool", facts)).unwrap(),
        path("/usr/bin")
    );
}

fn fit_fixture() -> (FakeHost, LaunchSpec) {
    let (mut host, cli, env) = launch_fixture();
    let spec = launch(&host, &cli, &env).unwrap();
    host.write("/proc/sys/user/max_user_namespaces", " 15000\n");
    host.write("/proc/sys/dev/tty/legacy_tiocsti", "0\n");
    (host, spec)
}

#[test]
fn a_fit_host_passes_the_check() {
    let (mut host, spec) = fit_fixture();
    assert!(decide(&host, |facts| preflight(&spec, facts)).is_ok());
    host.nodes.remove("/proc/sys/dev/tty/legacy_tiocsti");
    assert!(decide(&host, |facts| preflight(&spec, facts)).is_ok());
}

#[test]
fn an_unfit_host_is_told_why() {
    let report = |change: &dyn Fn(&mut FakeHost)| {
        let (mut host, spec) = fit_fixture();
        change(&mut host);
        decide(&host, |facts| preflight(&spec, facts)).unwrap_err().report()
    };
    let namespaces = "/proc/sys/user/max_user_namespaces";
    assert_eq!(
        report(&|host| {
            host.nodes.remove(namespaces);
        }),
        "cannot read /proc/sys/user/max_user_namespaces: No such file or directory (os error 2)"
    );
    assert_eq!(
        report(&|host| host.write(namespaces, "0\n")),
        "unprivileged user namespaces are disabled (max_user_namespaces=0)"
    );
    for (held, why) in [
        ("\n", "cannot parse integer from empty string"),
        ("many", "invalid digit found in string"),
        ("18446744073709551616", "number too large to fit in target type"),
    ] {
        assert_eq!(held.trim().parse::<u64>().unwrap_err().to_string(), why);
        assert_eq!(
            report(&|host| host.write(namespaces, held)),
            format!("invalid /proc/sys/user/max_user_namespaces: {why}")
        );
    }
    assert_eq!(
        report(&|host| host.write("/proc/sys/dev/tty/legacy_tiocsti", "1\n")),
        "legacy TIOCSTI is enabled; refusing to retain the controlling terminal"
    );
    assert_eq!(
        report(&|host| host.unreadable.push("/proc/sys/dev/tty/legacy_tiocsti".to_string())),
        "cannot read /proc/sys/dev/tty/legacy_tiocsti: Permission denied (os error 13)"
    );
    assert_eq!(
        report(&|host| host.put("/usr/bin/bwrap", Node::File(Vec::new(), 0o104755))),
        "setuid Bubblewrap does not support the required --overlay isolation"
    );
    assert_eq!(
        report(&|host| {
            host.nodes.remove("/usr/bin/bwrap");
        }),
        "cannot inspect Bubblewrap /usr/bin/bwrap: No such file or directory (os error 2)"
    );
    assert_eq!(
        report(&|host| {
            host.nodes.remove("/home/u/.omp");
        }),
        "host OMP state lower layer /home/u/.omp is missing"
    );
}

#[test]
fn the_program_asks_then_checks_then_acts() {
    let (mut host, cli, env) = launch_fixture();
    host.write("/proc/sys/user/max_user_namespaces", "1");
    let mut facts = HostFacts::new();
    let mut checks = HostFacts::new();
    let reports: Vec<Report> = Vec::new();
    loop {
        match sbox::execute(&cli, &env, &facts, &checks, &reports) {
            Progress::Ask(question) => {
                let answer = host.answer(&question);
                facts.record(question, answer);
            }
            Progress::Check(question) => {
                let answer = host.answer(&question);
                checks.record(question, answer);
            }
            Progress::Act(act) => {
                assert_eq!(
                    act,
                    sbox::sandbox::ActOf::Inspect(path("/home/u/project/.sbox"))
                );
                break;
            }
            Progress::Ended(result) => panic!("ended early: {:?}", result),
        }
    }
    let failed = sbox::execute(&cli, &env_of(&[]), &facts, &checks, &reports);
    match failed {
        Progress::Ended(Err(error)) => assert_eq!(error.report(), "PATH is not set"),
        other => panic!("unexpected {:?}", other),
    }
}

fn policy_of(source: &str, project: &str) -> Result<UserPolicy, Error> {
    let mut host = FakeHost::new();
    host.write("/root/config.toml", source);
    decide(&host, |facts| load_user_policy_at(&path("/root/config.toml"), &path(project), facts))
}

#[test]
fn merges_rules_matching_the_canonical_project_path() {
    let root = "/tmp/fixture";
    let project = format!("{root}/work/app");
    let context = format!("{root}/context");
    let policy = policy_of(
        &format!(
            r#"
[[project]]
path = "{root}/work/**"
allow_read = ["{context}"]
pass_env = ["SERVICE_TOKEN"]

[[project]]
path = "{project}"
strict_mcp = true
"#
        ),
        &project,
    )
    .unwrap();

    assert_eq!(policy.allow_read, [path(&context)]);
    assert_eq!(policy.pass_env, [text_bytes("SERVICE_TOKEN")]);
    assert!(policy.strict_mcp);
}

#[test]
fn ignores_non_matching_rules() {
    let root = "/tmp/fixture";
    let policy = policy_of(
        &format!(
            r#"
[[project]]
path = "{root}/other/**"
pass_env = ["SERVICE_TOKEN"]
strict_mcp = true
"#
        ),
        &format!("{root}/work/app"),
    );
    assert_eq!(policy.unwrap(), UserPolicy::default());
}

#[test]
fn rejects_relative_project_patterns() {
    let error = policy_of("[[project]]\npath = \"projects/**\"\n", "/tmp/fixture")
        .unwrap_err()
        .message();
    assert!(error.contains("must be absolute"));
    assert_eq!(
        error,
        "project path pattern \"projects/**\" in /root/config.toml must be absolute"
    );
}

#[test]
fn bad_rules_and_bad_files_are_reported() {
    assert_eq!(
        policy_of(
            "[[project]]\npath = \"/**\"\nallow_read = [\"near\"]\n",
            "/tmp/fixture"
        )
        .unwrap_err()
        .report(),
        "allow_read path near in /root/config.toml must be absolute"
    );
    let unclosed = policy_of("[[project]]\npath = \"/[a\"\n", "/tmp/fixture").unwrap_err();
    assert_eq!(
        unclosed.message(),
        "invalid project path pattern \"/[a\" in /root/config.toml"
    );
    assert_eq!(
        unclosed.report(),
        format!(
            "invalid project path pattern \"/[a\" in /root/config.toml: {}",
            globset::Glob::new("/[a").unwrap_err()
        )
    );
    assert_eq!(
        policy_of("project = ", "/tmp/fixture").unwrap_err().message(),
        "malformed user configuration /root/config.toml"
    );
    let mut host = FakeHost::new();
    host.mkdir("/root/config.toml");
    let load = |host: &FakeHost| {
        decide(host, |facts| load_user_policy_at(&path("/root/config.toml"), &path("/p"), facts))
    };
    assert_eq!(
        load(&host).unwrap_err().report(),
        "user configuration /root/config.toml must be a regular file"
    );
    host.write("/root/config.toml", "");
    host.unreadable.push("/root/config.toml".to_string());
    assert_eq!(
        load(&host).unwrap_err().report(),
        "cannot read user configuration /root/config.toml: Permission denied (os error 13)"
    );
    host.nodes.remove("/root/config.toml");
    assert_eq!(load(&host).unwrap(), UserPolicy::default());
}

#[test]
fn the_configuration_is_kept_where_the_user_says() {
    let at = |entries: &[(&str, &str)]| user_config_path(&path("/home/u"), &env_of(entries));
    assert_eq!(at(&[]).unwrap(), path("/home/u/.config/sbox/config.toml"));
    assert_eq!(
        at(&[("XDG_CONFIG_HOME", "/etc/xdg")]).unwrap(),
        path("/etc/xdg/sbox/config.toml")
    );
    assert_eq!(
        at(&[("XDG_CONFIG_HOME", "xdg")]).unwrap_err().report(),
        "XDG_CONFIG_HOME must be an absolute path"
    );
    let mut host = FakeHost::new();
    host.write(
        "/home/u/.config/sbox/config.toml",
        "[[project]]\npath = \"/p/*\"\nstrict_mcp = true\n",
    );
    let policy = decide(&host, |facts| {
        load_user_policy(&path("/home/u"), &path("/p/app"), &env_of(&[]), facts)
    });
    assert!(policy.unwrap().strict_mcp);
}

#[test]
fn a_rule_is_taken_in_by_the_verdict_on_its_pattern() {
    let rule = ProjectRule {
        path: "/p/*".to_string(),
        allow_read: vec![path("/srv")],
        pass_env: vec!["TOKEN".to_string()],
        strict_mcp: true,
    };
    let consider = |verdict| {
        consider_rule(UserPolicy::default(), &rule, &path("/c.toml"), verdict)
    };
    assert_eq!(consider(VerdictOf::Answer(false)).unwrap(), UserPolicy::default());
    assert_eq!(
        consider(VerdictOf::Answer(true)).unwrap(),
        UserPolicy {
            allow_read: vec![path("/srv")],
            pass_env: vec![text_bytes("TOKEN")],
            strict_mcp: true,
        }
    );
    assert_eq!(
        consider(VerdictOf::NoGlob("why".to_string())).unwrap_err().report(),
        "invalid project path pattern \"/p/*\" in /c.toml: why"
    );
    assert_eq!(
        consider(VerdictOf::Relative).unwrap_err().report(),
        "project path pattern \"/p/*\" in /c.toml must be absolute"
    );
    assert_eq!(
        consider(VerdictOf::TooLarge).unwrap_err().report(),
        "project path pattern \"/p/*\" in /c.toml is too large"
    );
}

fn rule_for(pattern: &str) -> String {
    format!("[[project]]\npath = \"{pattern}\"\nstrict_mcp = true\n")
}

#[test]
fn a_pattern_may_hold_many_groups_and_be_long() {
    let groups = format!("/{}", "{a,b}".repeat(200));
    assert_eq!(judge(&groups, format!("/{}", "ab".repeat(100)).as_bytes()), VerdictOf::Answer(true));
    assert_eq!(judge(&groups, format!("/{}c", "ab".repeat(100)).as_bytes()), VerdictOf::Answer(false));
    let project = format!("/{}", "ab".repeat(100));
    assert!(policy_of(&rule_for(&groups), &project).unwrap().strict_mcp);
    assert!(!policy_of(&rule_for(&groups), "/p").unwrap().strict_mcp);
    let long = format!("/{}", "d/".repeat(20000));
    assert_eq!(judge(&long, long.as_bytes()), VerdictOf::Answer(true));
    assert_eq!(judge(&long, b"/d"), VerdictOf::Answer(false));
    let nested = format!("/{}a{}", "{".repeat(60), "}".repeat(60));
    assert_eq!(judge(&nested, b"/a"), VerdictOf::Answer(true));
}

#[test]
fn groups_that_hold_nothing_may_nest_as_deep_as_they_like() {
    let nothing = |n: usize| format!("{}{}", "{".repeat(n), "}".repeat(n));
    let deep = nothing(1500);
    let listed = format!(
        "{}{},{}{}",
        "{,".repeat(900),
        nothing(700),
        nothing(2),
        ",}".repeat(900)
    );
    for empty in [deep, listed] {
        let pattern = format!("/a{empty}b");
        assert_eq!(judge(&pattern, b"/ab"), VerdictOf::Answer(true));
        assert_eq!(judge(&pattern, b"/a{}b"), VerdictOf::Answer(false));
        assert!(policy_of(&rule_for(&pattern), "/ab").unwrap().strict_mcp);
        for (before, after) in [
            ("/x/", "**/a"),
            ("/x", "/**/a"),
            ("/x/**", ""),
            ("/{x,", "/y}**"),
            ("/[{]", "*"),
            ("/\\{", ",{a,b}"),
        ] {
            let short = format!("{before}{{}}{after}");
            let long = format!("{before}{empty}{after}");
            for path in ["/x/a", "/x/y/a", "/xa", "/x/", "/x", "/y", "/{", "/{,a", "/{,b/", "/"] {
                assert_eq!(judge(&long, path.as_bytes()), judge(&short, path.as_bytes()), "{path}");
            }
        }
    }
    let mixed = format!("/{{a{},b}}", nothing(1200));
    assert_eq!(judge(&mixed, b"/a"), VerdictOf::Answer(true));
    assert_eq!(judge(&mixed, b"/b"), VerdictOf::Answer(true));
    assert_eq!(judge(&mixed, b"/"), VerdictOf::Answer(false));
}

#[test]
fn a_fault_is_reported_however_deep_groups_nest() {
    for depth in [2, 1001, 1500] {
        for inner in ["", "a", "[{]", "\\}"] {
            let groups = format!("/{}{inner}{}", "{".repeat(depth), "}".repeat(depth));
            for fault in ["[", "[!", "[]a", "{", "}", "}{", "\\", "{\\", "{[z-a]}", "[z-a", "{b,[", "}["] {
                for pattern in [format!("{groups}{fault}"), format!("/{fault}{groups}")] {
                    let error = match globset::Glob::new(&pattern) {
                        Ok(_) => continue,
                        Err(error) => error.to_string(),
                    };
                    assert_eq!(judge(&pattern, b"/a"), VerdictOf::NoGlob(error), "{depth} {inner} {fault}");
                }
            }
        }
    }
}

#[test]
fn a_glob_may_be_as_large_as_can_be_compiled() {
    let fits = |n: usize, end: &str| {
        match judge(&format!("/{}{end}", "a".repeat(n)), b"/a") {
            VerdictOf::Answer(_) => true,
            VerdictOf::TooLarge => false,
            other => panic!("unexpected {:?}", other),
        }
    };
    let (mut low, mut high): (usize, usize) = (327600, 327728);
    assert!(fits(low, "") && !fits(high, ""));
    while low + 1 < high {
        let middle = (low + high) / 2;
        if fits(middle, "") {
            low = middle;
        } else {
            high = middle;
        }
    }
    assert!(fits(low - 1, "b"));
    assert!(!fits(low, "b"));
    assert!(!fits(low, "?.x"));
}

#[test]
fn a_glob_that_cannot_be_compiled_is_too_large() {
    for depth in [300, 1001, 5000] {
        let nested = format!("/{}a{}", "{".repeat(depth), "}".repeat(depth));
        assert_eq!(judge(&nested, b"/a"), VerdictOf::TooLarge, "{depth}");
        assert_eq!(
            policy_of(&rule_for(&nested), "/a").unwrap_err().report(),
            format!("project path pattern \"{nested}\" in /root/config.toml is too large")
        );
    }
    let relative = format!("{}a{}", "{".repeat(300), "}".repeat(300));
    assert_eq!(judge(&relative, b"/a"), VerdictOf::Relative);
    assert_eq!(judge("", b""), VerdictOf::Relative);
    assert_eq!(
        policy_of(&rule_for(&relative), "/a").unwrap_err().report(),
        format!("project path pattern \"{relative}\" in /root/config.toml must be absolute")
    );
}

#[test]
fn only_braces_that_group_count_towards_nesting() {
    let nested = |n: usize| format!("{}{}", "{".repeat(n), "}".repeat(n));
    assert!(nests_shallow(&nested(1000)));
    assert!(!nests_shallow(&nested(1001)));
    assert!(nests_shallow(&format!("[{}]", nested(1001))));
    assert!(nests_shallow(&"\\{".repeat(1001)));
    assert!(nests_shallow(&"{a}".repeat(5000)));
    assert!(!nests_shallow(&format!("[]]{}", nested(1001))));
    assert_eq!(
        judge("/{a", b"/a"),
        VerdictOf::NoGlob(globset::Glob::new("/{a").unwrap_err().to_string())
    );
}

#[test]
fn what_an_executable_needs_stays_added_when_more_is_refused() {
    let mut host = FakeHost::new();
    host.write("/home/u/package.json", "{}");
    let add = |lexical: &str, canonical: &str| {
        decide(&host, |facts| {
            let mut roots = vec![path("/kept")];
            let mut dirs = vec![path("/kept/bin")];
            let added = add_executable_layout(
                &path(lexical),
                &path(canonical),
                &path("/home/u"),
                facts,
                &mut roots,
                &mut dirs,
            );
            match added {
                Ok(()) => Ok((roots, dirs, None)),
                Err(StopOf::Fail(error)) => Ok((roots, dirs, Some(error.message()))),
                Err(ask) => Err(ask),
            }
        })
        .unwrap()
    };
    let refused = |root: &str| {
        Some(format!(
            "refusing inferred broad mount {root}; use --allow-read with a narrower path"
        ))
    };
    assert_eq!(
        add("/home/u/tool", "/home/u/tool"),
        (vec![path("/kept")], vec![path("/kept/bin")], refused("/home/u"))
    );
    assert_eq!(
        add("/home/u/bin/tool", "/home/u/bin/tool"),
        (
            vec![path("/kept"), path("/home/u/bin")],
            vec![path("/kept/bin"), path("/home/u/bin")],
            refused("/home/u"),
        )
    );
    assert_eq!(
        add("/opt/t/bin/tool", "/home/u/bin/tool"),
        (
            vec![path("/kept"), path("/opt/t/bin"), path("/opt/t/bin")],
            vec![path("/kept/bin"), path("/opt/t/bin")],
            refused("/home/u"),
        )
    );
    assert_eq!(
        add("/opt/t/bin/tool", "/opt/node_modules/t/tool"),
        (
            vec![
                path("/kept"),
                path("/opt/t/bin"),
                path("/opt/t/bin"),
                path("/opt/node_modules/t"),
                path("/opt/node_modules"),
            ],
            vec![path("/kept/bin"), path("/opt/t/bin")],
            None,
        )
    );
}
