//! The MCP servers that trusted configuration files declare.
use vstd::prelude::*;
use vstd::string::*;

use crate::bytes::{bytes_of, text_bytes};
use crate::error::{failure, in_context, path, text, Error, ErrorView, Message, MessageView};
use crate::host::{
    bytes_at, fail, host_error, host_failure, list_outcome, FactsView, HostFacts, ReplyOf, Stop,
    StopOf, StopView,
};
use crate::json::{document, lemma_array_tree, lemma_object_tree, parse, Json, JsonTree};
use crate::path::{is_absolute, HostPath};
use crate::views::views;

verus! {

broadcast use crate::views::group_views;

/// A server that runs on this host.
#[derive(Clone, Debug, PartialEq, Eq)]
pub struct LocalServer {
    pub name: String,
    /// The file that declares it.
    pub source: HostPath,
    pub command: Vec<u8>,
    pub args: Vec<Vec<u8>>,
    pub cwd: Option<HostPath>,
}

pub struct ServerView {
    pub name: Seq<char>,
    pub source: Seq<u8>,
    pub command: Seq<u8>,
    pub args: Seq<Seq<u8>>,
    pub cwd: Option<Seq<u8>>,
}

impl View for LocalServer {
    type V = ServerView;

    open spec fn view(&self) -> ServerView {
        ServerView {
            name: self.name@,
            source: self.source@,
            command: self.command@,
            args: views(self.args@),
            cwd: match self.cwd {
                Some(dir) => Some(dir@),
                None => None,
            },
        }
    }
}

/// The last entry of an object that goes by the name `key`.
pub open spec fn entry(entries: Seq<(Seq<char>, JsonTree)>, key: Seq<char>) -> Option<JsonTree>
    decreases entries.len(),
{
    if entries.len() == 0 {
        None
    } else if entries.last().0 == key {
        Some(entries.last().1)
    } else {
        entry(entries.drop_last(), key)
    }
}

/// `MCP server NAME in SOURCE`.
pub open spec fn server_label(name: Seq<char>, source: Seq<u8>) -> MessageView {
    seq![text("MCP server "@)].push(text(name)).push(text(" in "@)).push(path(source))
}

/// A complaint about a server.
pub open spec fn server_failure(name: Seq<char>, source: Seq<u8>, tail: Seq<char>) -> ErrorView {
    failure(server_label(name, source).push(text(tail)))
}

/// A complaint about one field of a server.
pub open spec fn field_failure(
    field: Seq<char>,
    name: Seq<char>,
    source: Seq<u8>,
    tail: Seq<char>,
) -> ErrorView {
    failure((seq![text(field)].push(text(" for "@)) + server_label(name, source)).push(text(tail)))
}

/// A complaint about one section of a file.
pub open spec fn section_failure(section: Seq<char>, source: Seq<u8>, tail: Seq<char>) -> ErrorView {
    failure(seq![text(section)].push(text(" in "@)).push(path(source)).push(text(tail)))
}

/// The first `n` items as host words, if all of them are strings.
pub open spec fn words(items: Seq<JsonTree>, n: nat) -> Option<Seq<Seq<u8>>>
    decreases n,
{
    if n == 0 {
        Some(Seq::empty())
    } else {
        match (words(items, (n - 1) as nat), items[n - 1]) {
            (Some(front), JsonTree::Text(t)) => Some(front.push(bytes_of(t))),
            _ => None,
        }
    }
}

/// An optional array of strings.
pub open spec fn string_list(
    value: Option<JsonTree>,
    field: Seq<char>,
    name: Seq<char>,
    source: Seq<u8>,
) -> Result<Seq<Seq<u8>>, ErrorView> {
    match value {
        None => Ok(Seq::empty()),
        Some(JsonTree::Array(items)) => match words(items, items.len()) {
            Some(all) => Ok(all),
            None => Err(field_failure(field, name, source, " must contain strings"@)),
        },
        Some(_) => Err(field_failure(field, name, source, " must be an array"@)),
    }
}

/// An optional object of which nothing is used.
pub open spec fn object_checked(
    value: Option<JsonTree>,
    field: Seq<char>,
    name: Seq<char>,
    source: Seq<u8>,
) -> Result<(), ErrorView> {
    match value {
        None => Ok(()),
        Some(JsonTree::Object(_)) => Ok(()),
        Some(_) => Err(field_failure(field, name, source, " must be an object"@)),
    }
}

/// An optional absolute path.
pub open spec fn absolute_path(
    value: Option<JsonTree>,
    field: Seq<char>,
    name: Seq<char>,
    source: Seq<u8>,
) -> Result<Option<Seq<u8>>, ErrorView> {
    match value {
        None => Ok(None),
        Some(JsonTree::Text(t)) => if is_absolute(bytes_of(t)) {
            Ok(Some(bytes_of(t)))
        } else {
            Err(field_failure(field, name, source, " must be absolute"@))
        },
        Some(_) => Err(field_failure(field, name, source, " must be a string"@)),
    }
}

/// Whether an entry is switched on, as every entry is unless it says otherwise.
pub open spec fn switched_on(
    entries: Seq<(Seq<char>, JsonTree)>,
    name: Seq<char>,
    source: Seq<u8>,
) -> Result<bool, ErrorView> {
    match entry(entries, "enabled"@) {
        None => Ok(true),
        Some(JsonTree::Bool(b)) => Ok(b),
        Some(_) => Err(field_failure("enabled"@, name, source, " must be boolean"@)),
    }
}

/// The server that an entry of an OMP configuration declares; none if it is
/// switched off or remote.
pub open spec fn omp_server(name: Seq<char>, value: JsonTree, source: Seq<u8>) -> Result<
    Option<ServerView>,
    ErrorView,
> {
    match value {
        JsonTree::Object(entries) => match switched_on(entries, name, source) {
            Err(error) => Err(error),
            Ok(false) => Ok(None),
            Ok(true) => match entry(entries, "command"@) {
                None => if entry(entries, "url"@) is Some {
                    Ok(None)
                } else {
                    Err(server_failure(name, source, " has no command"@))
                },
                Some(JsonTree::Text(command)) => match (
                    string_list(entry(entries, "args"@), "args"@, name, source),
                    object_checked(entry(entries, "env"@), "env"@, name, source),
                    absolute_path(entry(entries, "cwd"@), "cwd"@, name, source),
                ) {
                    (Err(error), _, _) => Err(error),
                    (Ok(_), Err(error), _) => Err(error),
                    (Ok(_), Ok(_), Err(error)) => Err(error),
                    (Ok(args), Ok(_), Ok(cwd)) => Ok(
                        Some(ServerView { name, source, command: bytes_of(command), args, cwd }),
                    ),
                },
                Some(_) => Err(field_failure("command"@, name, source, " must be a string"@)),
            },
        },
        _ => Err(server_failure(name, source, " must be an object"@)),
    }
}

/// The words of a command that is written as an array.
pub open spec fn command_words(value: Option<JsonTree>, name: Seq<char>, source: Seq<u8>) -> Result<
    Seq<Seq<u8>>,
    ErrorView,
> {
    match value {
        Some(JsonTree::Array(items)) => if items.len() == 0 {
            Err(field_failure("command"@, name, source, " must be a non-empty string array"@))
        } else {
            match words(items, items.len()) {
                Some(all) => Ok(all),
                None => Err(
                    field_failure("command"@, name, source, " must contain only strings"@),
                ),
            }
        },
        _ => Err(field_failure("command"@, name, source, " must be a non-empty string array"@)),
    }
}

/// The server that an entry of an OpenCode configuration declares; none if it is
/// switched off or not local.
pub open spec fn opencode_server(name: Seq<char>, value: JsonTree, source: Seq<u8>) -> Result<
    Option<ServerView>,
    ErrorView,
> {
    match value {
        JsonTree::Object(entries) => match switched_on(entries, name, source) {
            Err(error) => Err(error),
            Ok(false) => Ok(None),
            Ok(true) => match entry(entries, "type"@) {
                Some(JsonTree::Text(kind)) => if kind != "local"@ {
                    Ok(None)
                } else {
                    match (
                        object_checked(
                            entry(entries, "environment"@),
                            "environment"@,
                            name,
                            source,
                        ),
                        command_words(entry(entries, "command"@), name, source),
                    ) {
                        (Err(error), _) => Err(error),
                        (Ok(_), Err(error)) => Err(error),
                        (Ok(_), Ok(all)) => Ok(
                            Some(
                                ServerView {
                                    name,
                                    source,
                                    command: all[0],
                                    args: all.drop_first(),
                                    cwd: None,
                                },
                            ),
                        ),
                    }
                },
                _ => Err(server_failure(name, source, " has no string type"@)),
            },
        },
        _ => Err(server_failure(name, source, " must be an object"@)),
    }
}

/// Which of the two configuration formats a file follows.
#[derive(Clone, Copy, Debug, PartialEq, Eq)]
pub enum Schema {
    Omp,
    OpenCode,
}

pub open spec fn declared_server(
    schema: Schema,
    name: Seq<char>,
    value: JsonTree,
    source: Seq<u8>,
) -> Result<Option<ServerView>, ErrorView> {
    match schema {
        Schema::Omp => omp_server(name, value, source),
        Schema::OpenCode => opencode_server(name, value, source),
    }
}

/// The servers before, and those that the entries from the `i`-th on declare,
/// in order; entries named in `disabled` are passed over unread.
pub open spec fn servers_from(
    schema: Schema,
    entries: Seq<(Seq<char>, JsonTree)>,
    disabled: Seq<Seq<char>>,
    source: Seq<u8>,
    i: nat,
    before: Seq<ServerView>,
) -> Result<Seq<ServerView>, ErrorView>
    decreases entries.len() - i,
{
    if i >= entries.len() {
        Ok(before)
    } else if disabled.contains(entries[i as int].0) {
        servers_from(schema, entries, disabled, source, i + 1, before)
    } else {
        match declared_server(schema, entries[i as int].0, entries[i as int].1, source) {
            Err(error) => Err(error),
            Ok(None) => servers_from(schema, entries, disabled, source, i + 1, before),
            Ok(Some(server)) => servers_from(
                schema,
                entries,
                disabled,
                source,
                i + 1,
                before.push(server),
            ),
        }
    }
}

/// The servers that one section of a file declares; none without the section.
pub open spec fn section_servers(
    schema: Schema,
    root: Seq<(Seq<char>, JsonTree)>,
    section: Seq<char>,
    disabled: Seq<Seq<char>>,
    source: Seq<u8>,
) -> Result<Seq<ServerView>, ErrorView> {
    match entry(root, section) {
        None => Ok(Seq::empty()),
        Some(JsonTree::Object(entries)) => servers_from(
            schema,
            entries,
            disabled,
            source,
            0,
            Seq::empty(),
        ),
        Some(_) => Err(section_failure(section, source, " must be an object"@)),
    }
}

/// The first `n` items as names, if all of them are strings.
pub open spec fn names(items: Seq<JsonTree>, n: nat) -> Option<Seq<Seq<char>>>
    decreases n,
{
    if n == 0 {
        Some(Seq::empty())
    } else {
        match (names(items, (n - 1) as nat), items[n - 1]) {
            (Some(front), JsonTree::Text(t)) => Some(front.push(t)),
            _ => None,
        }
    }
}

/// The servers that an OMP configuration switches off by name.
pub open spec fn disabled_names(root: Seq<(Seq<char>, JsonTree)>, source: Seq<u8>) -> Result<
    Seq<Seq<char>>,
    ErrorView,
> {
    match entry(root, "disabledServers"@) {
        None => Ok(Seq::empty()),
        Some(JsonTree::Array(items)) => match names(items, items.len()) {
            Some(all) => Ok(all),
            None => Err(section_failure("disabledServers"@, source, " must contain strings"@)),
        },
        Some(_) => Err(section_failure("disabledServers"@, source, " must be an array"@)),
    }
}

/// The local servers of a parsed configuration.
pub open spec fn servers_in(
    schema: Schema,
    root: Seq<(Seq<char>, JsonTree)>,
    source: Seq<u8>,
) -> Result<Seq<ServerView>, ErrorView> {
    match schema {
        Schema::Omp => match disabled_names(root, source) {
            Err(error) => Err(error),
            Ok(disabled) => section_servers(schema, root, "mcpServers"@, disabled, source),
        },
        Schema::OpenCode => section_servers(schema, root, "mcp"@, Seq::empty(), source),
    }
}

/// The entries of a configuration, which must be an object.
pub open spec fn root_entries(source: Seq<u8>, parsed: Result<JsonTree, Seq<char>>) -> Result<
    Seq<(Seq<char>, JsonTree)>,
    ErrorView,
> {
    match parsed {
        Err(why) => Err(
            in_context(
                seq![text("malformed trusted MCP config "@)].push(path(source)),
                host_failure(why),
            ),
        ),
        Ok(JsonTree::Object(entries)) => Ok(entries),
        Ok(_) => Err(
            failure(
                seq![text("trusted MCP config "@)].push(path(source)).push(
                    text(" must be a JSON object"@),
                ),
            ),
        ),
    }
}

/// The local servers of the configuration file at `source`.
pub open spec fn configured_servers(facts: FactsView, schema: Schema, source: Seq<u8>) -> Result<
    Seq<ServerView>,
    StopView,
> {
    match bytes_at(facts, source) {
        Err(stop) => Err(stop),
        Ok(ReplyOf::Failed(why)) => fail(
            in_context(seq![text("cannot read "@)].push(path(source)), host_failure(why)),
        ),
        Ok(ReplyOf::Got(bytes)) => match root_entries(source, document(bytes)) {
            Err(error) => fail(error),
            Ok(root) => match servers_in(schema, root, source) {
                Err(error) => fail(error),
                Ok(servers) => Ok(servers),
            },
        },
    }
}

fn find_entry<'a>(entries: &'a Vec<(String, Json)>, key: &str) -> (r: Option<&'a Json>)
    ensures
        match r {
            Some(value) => entry(views(entries@), key@) == Some(value@),
            None => entry(views(entries@), key@) is None,
        },
{
    let ghost all = views(entries@);
    let wanted = key.to_owned();
    let mut k: usize = entries.len();
    assert(all.take(k as int) =~= all);
    while k > 0
        invariant
            k <= entries.len(),
            all == views(entries@),
            wanted@ == key@,
            entry(all, key@) == entry(all.take(k as int), key@),
        decreases k,
    {
        assert(all.take(k as int).last() == entries@[k - 1]@);
        assert(all.take(k as int).drop_last() =~= all.take(k - 1));
        if entries[k - 1].0 == wanted {
            return Some(&entries[k - 1].1);
        }
        k -= 1;
    }
    None
}

/// `MCP server NAME in SOURCE`.
pub fn label_server(name: &String, source: &HostPath) -> (r: Message)
    ensures
        r@ == server_label(name@, source@),
{
    Message::new("MCP server ").text(name.as_str()).text(" in ").path(source)
}

fn server_error(name: &String, source: &HostPath, tail: &str) -> (r: Error)
    ensures
        r@ == server_failure(name@, source@, tail@),
{
    Error::new(label_server(name, source).text(tail))
}

fn field_error(field: &str, name: &String, source: &HostPath, tail: &str) -> (r: Error)
    ensures
        r@ == field_failure(field@, name@, source@, tail@),
{
    Error::new(Message::new(field).text(" for ").then_all(label_server(name, source)).text(tail))
}

fn section_error(section: &str, source: &HostPath, tail: &str) -> (r: Error)
    ensures
        r@ == section_failure(section@, source@, tail@),
{
    Error::new(Message::new(section).text(" in ").path(source).text(tail))
}

fn read_words(items: &Vec<Json>) -> (r: Option<Vec<Vec<u8>>>)
    ensures
        match r {
            Some(all) => words(views(items@), items@.len()) == Some(views(all@)),
            None => words(views(items@), items@.len()) is None,
        },
{
    let ghost trees = views(items@);
    let mut all: Vec<Vec<u8>> = Vec::new();
    let mut i: usize = 0;
    assert(views(all@) =~= Seq::empty());
    while i < items.len()
        invariant
            i <= items.len(),
            trees == views(items@),
            words(trees, i as nat) == Some(views(all@)),
        decreases items.len() - i,
    {
        assert(trees[i as int] == items@[i as int]@);
        match &items[i] {
            Json::Text(t) => {
                all.push(text_bytes(t.as_str()));
            },
            _ => {
                proof {
                    lemma_words_stop(trees, (i + 1) as nat, items@.len());
                }
                return None;
            },
        }
        i += 1;
    }
    Some(all)
}

/// One item that is no string spoils the list.
proof fn lemma_words_stop(items: Seq<JsonTree>, n: nat, m: nat)
    requires
        words(items, n) is None,
        n <= m,
    ensures
        words(items, m) is None,
    decreases m,
{
    if n < m {
        lemma_words_stop(items, n, (m - 1) as nat);
    }
}

fn read_names(items: &Vec<Json>) -> (r: Option<Vec<String>>)
    ensures
        match r {
            Some(all) => names(views(items@), items@.len()) == Some(views(all@)),
            None => names(views(items@), items@.len()) is None,
        },
{
    let ghost trees = views(items@);
    let mut all: Vec<String> = Vec::new();
    let mut i: usize = 0;
    assert(views(all@) =~= Seq::empty());
    while i < items.len()
        invariant
            i <= items.len(),
            trees == views(items@),
            names(trees, i as nat) == Some(views(all@)),
        decreases items.len() - i,
    {
        assert(trees[i as int] == items@[i as int]@);
        match &items[i] {
            Json::Text(t) => {
                all.push(t.clone());
            },
            _ => {
                proof {
                    lemma_names_stop(trees, (i + 1) as nat, items@.len());
                }
                return None;
            },
        }
        i += 1;
    }
    Some(all)
}

proof fn lemma_names_stop(items: Seq<JsonTree>, n: nat, m: nat)
    requires
        names(items, n) is None,
        n <= m,
    ensures
        names(items, m) is None,
    decreases m,
{
    if n < m {
        lemma_names_stop(items, n, (m - 1) as nat);
    }
}

/// An optional value in the abstract.
pub open spec fn tree_of(value: Option<&Json>) -> Option<JsonTree> {
    match value {
        Some(json) => Some(json@),
        None => None,
    }
}

/// An optional array of strings.
pub fn string_array(
    value: Option<&Json>,
    field: &str,
    server: &String,
    source: &HostPath,
) -> (r: Result<Vec<Vec<u8>>, Error>)
    ensures
        match r {
            Ok(all) => string_list(tree_of(value), field@, server@, source@) == Ok::<
                Seq<Seq<u8>>,
                ErrorView,
            >(views(all@)),
            Err(error) => string_list(tree_of(value), field@, server@, source@) == Err::<
                Seq<Seq<u8>>,
                ErrorView,
            >(error@),
        },
{
    match value {
        None => {
            let none: Vec<Vec<u8>> = Vec::new();
            assert(views(none@) =~= Seq::empty());
            Ok(none)
        },
        Some(Json::Array(items)) => {
            proof {
                lemma_array_tree(*items);
            }
            match read_words(items) {
                Some(all) => Ok(all),
                None => Err(field_error(field, server, source, " must contain strings")),
            }
        },
        Some(_) => Err(field_error(field, server, source, " must be an array")),
    }
}

/// An optional object of which nothing is used.
pub fn validate_object(
    value: Option<&Json>,
    field: &str,
    server: &String,
    source: &HostPath,
) -> (r: Result<(), Error>)
    ensures
        match r {
            Ok(_) => object_checked(tree_of(value), field@, server@, source@) is Ok,
            Err(error) => object_checked(tree_of(value), field@, server@, source@) == Err::<
                (),
                ErrorView,
            >(error@),
        },
{
    match value {
        None => Ok(()),
        Some(Json::Object(_)) => Ok(()),
        Some(_) => Err(field_error(field, server, source, " must be an object")),
    }
}

/// An optional absolute path.
pub fn optional_absolute_path(
    value: Option<&Json>,
    field: &str,
    server: &String,
    source: &HostPath,
) -> (r: Result<Option<HostPath>, Error>)
    ensures
        match r {
            Ok(Some(found)) => absolute_path(tree_of(value), field@, server@, source@) == Ok::<
                Option<Seq<u8>>,
                ErrorView,
            >(Some(found@)),
            Ok(None) => absolute_path(tree_of(value), field@, server@, source@) == Ok::<
                Option<Seq<u8>>,
                ErrorView,
            >(None),
            Err(error) => absolute_path(tree_of(value), field@, server@, source@) == Err::<
                Option<Seq<u8>>,
                ErrorView,
            >(error@),
        },
{
    match value {
        None => Ok(None),
        Some(Json::Text(t)) => {
            let found = HostPath::new(t.as_str());
            if found.is_absolute() {
                Ok(Some(found))
            } else {
                Err(field_error(field, server, source, " must be absolute"))
            }
        },
        Some(_) => Err(field_error(field, server, source, " must be a string")),
    }
}

fn is_switched_on(entries: &Vec<(String, Json)>, name: &String, source: &HostPath) -> (r: Result<
    bool,
    Error,
>)
    ensures
        match r {
            Ok(on) => switched_on(views(entries@), name@, source@) == Ok::<bool, ErrorView>(on),
            Err(error) => switched_on(views(entries@), name@, source@) == Err::<bool, ErrorView>(
                error@,
            ),
        },
{
    match find_entry(entries, "enabled") {
        None => Ok(true),
        Some(Json::Bool(b)) => Ok(*b),
        Some(_) => Err(field_error("enabled", name, source, " must be boolean")),
    }
}

/// The server that an entry of an OMP configuration declares.
pub fn read_omp_server(name: &String, value: &Json, source: &HostPath) -> (r: Result<
    Option<LocalServer>,
    Error,
>)
    ensures
        match r {
            Ok(Some(server)) => omp_server(name@, value@, source@) == Ok::<
                Option<ServerView>,
                ErrorView,
            >(Some(server@)),
            Ok(None) => omp_server(name@, value@, source@) == Ok::<Option<ServerView>, ErrorView>(
                None,
            ),
            Err(error) => omp_server(name@, value@, source@) == Err::<
                Option<ServerView>,
                ErrorView,
            >(error@),
        },
{
    let entries = match value {
        Json::Object(entries) => entries,
        _ => {
            return Err(server_error(name, source, " must be an object"));
        },
    };
    proof {
        lemma_object_tree(*entries);
    }
    match is_switched_on(entries, name, source) {
        Err(error) => {
            return Err(error);
        },
        Ok(false) => {
            return Ok(None);
        },
        Ok(true) => {},
    }
    let command = match find_entry(entries, "command") {
        None => {
            if find_entry(entries, "url").is_some() {
                return Ok(None);
            }
            return Err(server_error(name, source, " has no command"));
        },
        Some(Json::Text(command)) => command,
        Some(_) => {
            return Err(field_error("command", name, source, " must be a string"));
        },
    };
    let args = match string_array(find_entry(entries, "args"), "args", name, source) {
        Err(error) => {
            return Err(error);
        },
        Ok(args) => args,
    };
    match validate_object(find_entry(entries, "env"), "env", name, source) {
        Err(error) => {
            return Err(error);
        },
        Ok(_) => {},
    }
    match optional_absolute_path(find_entry(entries, "cwd"), "cwd", name, source) {
        Err(error) => Err(error),
        Ok(cwd) => Ok(
            Some(
                LocalServer {
                    name: name.clone(),
                    source: source.copy(),
                    command: text_bytes(command.as_str()),
                    args,
                    cwd,
                },
            ),
        ),
    }
}

fn read_command(value: Option<&Json>, name: &String, source: &HostPath) -> (r: Result<
    Vec<Vec<u8>>,
    Error,
>)
    ensures
        match r {
            Ok(all) => command_words(tree_of(value), name@, source@) == Ok::<
                Seq<Seq<u8>>,
                ErrorView,
            >(views(all@)) && all@.len() > 0,
            Err(error) => command_words(tree_of(value), name@, source@) == Err::<
                Seq<Seq<u8>>,
                ErrorView,
            >(error@),
        },
{
    match value {
        Some(Json::Array(items)) => {
            proof {
                lemma_array_tree(*items);
            }
            if items.len() == 0 {
                Err(field_error("command", name, source, " must be a non-empty string array"))
            } else {
                match read_words(items) {
                    Some(all) => {
                        proof {
                            lemma_words_length(views(items@), items@.len());
                            assert(views(all@).len() == all@.len());
                        }
                        Ok(all)
                    },
                    None => Err(
                        field_error("command", name, source, " must contain only strings"),
                    ),
                }
            }
        },
        _ => Err(field_error("command", name, source, " must be a non-empty string array")),
    }
}

proof fn lemma_words_length(items: Seq<JsonTree>, n: nat)
    ensures
        words(items, n) is Some ==> words(items, n)->0.len() == n,
    decreases n,
{
    if n > 0 {
        lemma_words_length(items, (n - 1) as nat);
    }
}

/// The server that an entry of an OpenCode configuration declares.
pub fn read_opencode_server(name: &String, value: &Json, source: &HostPath) -> (r: Result<
    Option<LocalServer>,
    Error,
>)
    ensures
        match r {
            Ok(Some(server)) => opencode_server(name@, value@, source@) == Ok::<
                Option<ServerView>,
                ErrorView,
            >(Some(server@)),
            Ok(None) => opencode_server(name@, value@, source@) == Ok::<
                Option<ServerView>,
                ErrorView,
            >(None),
            Err(error) => opencode_server(name@, value@, source@) == Err::<
                Option<ServerView>,
                ErrorView,
            >(error@),
        },
{
    let entries = match value {
        Json::Object(entries) => entries,
        _ => {
            return Err(server_error(name, source, " must be an object"));
        },
    };
    proof {
        lemma_object_tree(*entries);
    }
    match is_switched_on(entries, name, source) {
        Err(error) => {
            return Err(error);
        },
        Ok(false) => {
            return Ok(None);
        },
        Ok(true) => {},
    }
    match find_entry(entries, "type") {
        Some(Json::Text(kind)) => {
            if *kind != "local".to_owned() {
                return Ok(None);
            }
        },
        _ => {
            return Err(server_error(name, source, " has no string type"));
        },
    }
    match validate_object(find_entry(entries, "environment"), "environment", name, source) {
        Err(error) => {
            return Err(error);
        },
        Ok(_) => {},
    }
    match read_command(find_entry(entries, "command"), name, source) {
        Err(error) => Err(error),
        Ok(all) => {
            let ghost total = views(all@);
            let mut args = all;
            let command = args.remove(0);
            assert(command@ == total[0]);
            assert(views(args@) =~= total.drop_first());
            Ok(
                Some(
                    LocalServer {
                        name: name.clone(),
                        source: source.copy(),
                        command,
                        args,
                        cwd: None,
                    },
                ),
            )
        },
    }
}

fn is_named(all: &Vec<String>, name: &String) -> (r: bool)
    ensures
        r == views(all@).contains(name@),
{
    let mut i: usize = 0;
    while i < all.len()
        invariant
            i <= all.len(),
            forall|j: int| 0 <= j < i ==> views(all@)[j] != name@,
        decreases all.len() - i,
    {
        if all[i] == *name {
            assert(views(all@)[i as int] == name@);
            return true;
        }
        i += 1;
    }
    false
}

fn read_servers(
    schema: Schema,
    entries: &Vec<(String, Json)>,
    disabled: &Vec<String>,
    source: &HostPath,
) -> (r: Result<Vec<LocalServer>, Error>)
    ensures
        match r {
            Ok(servers) => servers_from(
                schema,
                views(entries@),
                views(disabled@),
                source@,
                0,
                Seq::empty(),
            ) == Ok::<Seq<ServerView>, ErrorView>(views(servers@)),
            Err(error) => servers_from(
                schema,
                views(entries@),
                views(disabled@),
                source@,
                0,
                Seq::empty(),
            ) == Err::<Seq<ServerView>, ErrorView>(error@),
        },
{
    let ghost all = views(entries@);
    let ghost off = views(disabled@);
    let ghost whole = servers_from(schema, all, off, source@, 0, Seq::empty());
    let mut servers: Vec<LocalServer> = Vec::new();
    let mut i: usize = 0;
    assert(views(servers@) =~= Seq::empty());
    while i < entries.len()
        invariant
            i <= entries.len(),
            all == views(entries@),
            off == views(disabled@),
            whole == servers_from(schema, all, off, source@, 0, Seq::empty()),
            whole == servers_from(schema, all, off, source@, i as nat, views(servers@)),
        decreases entries.len() - i,
    {
        let name = &entries[i].0;
        let value = &entries[i].1;
        assert(all[i as int] == (name@, value@));
        if !is_named(disabled, name) {
            let found = match schema {
                Schema::Omp => read_omp_server(name, value, source),
                Schema::OpenCode => read_opencode_server(name, value, source),
            };
            match found {
                Err(error) => {
                    return Err(error);
                },
                Ok(None) => {},
                Ok(Some(server)) => {
                    servers.push(server);
                },
            }
        }
        i += 1;
    }
    assert(all.len() == i);
    Ok(servers)
}

fn read_section(
    schema: Schema,
    root: &Vec<(String, Json)>,
    section: &str,
    disabled: &Vec<String>,
    source: &HostPath,
) -> (r: Result<Vec<LocalServer>, Error>)
    ensures
        match r {
            Ok(servers) => section_servers(
                schema,
                views(root@),
                section@,
                views(disabled@),
                source@,
            ) == Ok::<Seq<ServerView>, ErrorView>(views(servers@)),
            Err(error) => section_servers(
                schema,
                views(root@),
                section@,
                views(disabled@),
                source@,
            ) == Err::<Seq<ServerView>, ErrorView>(error@),
        },
{
    match find_entry(root, section) {
        None => {
            let none: Vec<LocalServer> = Vec::new();
            assert(views(none@) =~= Seq::empty());
            Ok(none)
        },
        Some(Json::Object(entries)) => {
            proof {
                lemma_object_tree(*entries);
            }
            read_servers(schema, entries, disabled, source)
        },
        Some(_) => Err(section_error(section, source, " must be an object")),
    }
}

fn read_disabled(root: &Vec<(String, Json)>, source: &HostPath) -> (r: Result<Vec<String>, Error>)
    ensures
        match r {
            Ok(all) => disabled_names(views(root@), source@) == Ok::<Seq<Seq<char>>, ErrorView>(
                views(all@),
            ),
            Err(error) => disabled_names(views(root@), source@) == Err::<
                Seq<Seq<char>>,
                ErrorView,
            >(error@),
        },
{
    match find_entry(root, "disabledServers") {
        None => {
            let none: Vec<String> = Vec::new();
            assert(views(none@) =~= Seq::empty());
            Ok(none)
        },
        Some(Json::Array(items)) => {
            proof {
                lemma_array_tree(*items);
            }
            match read_names(items) {
                Some(all) => Ok(all),
                None => Err(section_error("disabledServers", source, " must contain strings")),
            }
        },
        Some(_) => Err(section_error("disabledServers", source, " must be an array")),
    }
}

/// The local servers that the entries of a configuration declare, in order.
pub fn servers_of(schema: Schema, root: &Vec<(String, Json)>, source: &HostPath) -> (r: Result<
    Vec<LocalServer>,
    Error,
>)
    ensures
        match r {
            Ok(servers) => servers_in(schema, views(root@), source@) == Ok::<
                Seq<ServerView>,
                ErrorView,
            >(views(servers@)),
            Err(error) => servers_in(schema, views(root@), source@) == Err::<
                Seq<ServerView>,
                ErrorView,
            >(error@),
        },
{
    match schema {
        Schema::Omp => match read_disabled(root, source) {
            Err(error) => Err(error),
            Ok(disabled) => read_section(schema, root, "mcpServers", &disabled, source),
        },
        Schema::OpenCode => {
            let disabled: Vec<String> = Vec::new();
            assert(views(disabled@) =~= Seq::empty());
            read_section(schema, root, "mcp", &disabled, source)
        },
    }
}

/// The entries of a parsed configuration, which must be an object.
pub fn object_entries(source: &HostPath, parsed: Result<Json, String>) -> (r: Result<
    Vec<(String, Json)>,
    Error,
>)
    ensures
        match r {
            Ok(entries) => root_entries(
                source@,
                match parsed {
                    Ok(json) => Ok(json@),
                    Err(why) => Err(why@),
                },
            ) == Ok::<Seq<(Seq<char>, JsonTree)>, ErrorView>(views(entries@)),
            Err(error) => root_entries(
                source@,
                match parsed {
                    Ok(json) => Ok(json@),
                    Err(why) => Err(why@),
                },
            ) == Err::<Seq<(Seq<char>, JsonTree)>, ErrorView>(error@),
        },
{
    match parsed {
        Err(why) => Err(
            host_error(&why).context(Message::new("malformed trusted MCP config ").path(source)),
        ),
        Ok(Json::Object(entries)) => {
            proof {
                lemma_object_tree(entries);
            }
            Ok(entries)
        },
        Ok(_) => Err(
            Error::new(
                Message::new("trusted MCP config ").path(source).text(" must be a JSON object"),
            ),
        ),
    }
}

/// Reads the bytes of the configuration file `source` as a JSON object.
pub fn parse_json_object(source: &HostPath, bytes: &[u8]) -> (r: Result<
    Vec<(String, Json)>,
    Error,
>)
    ensures
        match r {
            Ok(entries) => root_entries(source@, document(bytes@)) == Ok::<
                Seq<(Seq<char>, JsonTree)>,
                ErrorView,
            >(views(entries@)),
            Err(error) => root_entries(source@, document(bytes@)) == Err::<
                Seq<(Seq<char>, JsonTree)>,
                ErrorView,
            >(error@),
        },
{
    object_entries(source, parse(bytes))
}

fn load_servers(schema: Schema, source: &HostPath, host: &HostFacts) -> (r: Result<
    Vec<LocalServer>,
    Stop,
>)
    ensures
        list_outcome(r) == configured_servers(host@, schema, source@),
{
    let bytes = match host.read(source) {
        Err(stop) => {
            return Err(stop);
        },
        Ok(ReplyOf::Failed(why)) => {
            return Err(
                StopOf::Fail(
                    host_error(why).context(Message::new("cannot read ").path(source)),
                ),
            );
        },
        Ok(ReplyOf::Got(bytes)) => bytes,
    };
    match parse_json_object(source, bytes.as_slice()) {
        Err(error) => Err(StopOf::Fail(error)),
        Ok(root) => match servers_of(schema, &root, source) {
            Err(error) => Err(StopOf::Fail(error)),
            Ok(servers) => Ok(servers),
        },
    }
}

/// The local servers of the OMP configuration at `source`.
pub fn parse_omp_config(source: &HostPath, host: &HostFacts) -> (r: Result<Vec<LocalServer>, Stop>)
    ensures
        list_outcome(r) == configured_servers(host@, Schema::Omp, source@),
{
    load_servers(Schema::Omp, source, host)
}

/// The local servers of the OpenCode configuration at `source`.
pub fn parse_opencode_config(source: &HostPath, host: &HostFacts) -> (r: Result<
    Vec<LocalServer>,
    Stop,
>)
    ensures
        list_outcome(r) == configured_servers(host@, Schema::OpenCode, source@),
{
    load_servers(Schema::OpenCode, source, host)
}

/// The `i`-th entry declares a server and is not passed over.
pub open spec fn declares(
    schema: Schema,
    entries: Seq<(Seq<char>, JsonTree)>,
    disabled: Seq<Seq<char>>,
    source: Seq<u8>,
    i: int,
    server: ServerView,
) -> bool {
    &&& 0 <= i < entries.len()
    &&& !disabled.contains(entries[i].0)
    &&& declared_server(schema, entries[i].0, entries[i].1, source) == Ok::<
        Option<ServerView>,
        ErrorView,
    >(Some(server))
}

/// One of the entries from the `i`-th on declares a server and is not passed over.
pub open spec fn is_declared(
    schema: Schema,
    entries: Seq<(Seq<char>, JsonTree)>,
    disabled: Seq<Seq<char>>,
    source: Seq<u8>,
    i: int,
    server: ServerView,
) -> bool {
    exists|k: int| i <= k && #[trigger] declares(schema, entries, disabled, source, k, server)
}

proof fn lemma_servers_from(
    schema: Schema,
    entries: Seq<(Seq<char>, JsonTree)>,
    disabled: Seq<Seq<char>>,
    source: Seq<u8>,
    i: nat,
    before: Seq<ServerView>,
)
    requires
        servers_from(schema, entries, disabled, source, i, before) is Ok,
    ensures
        forall|server: ServerView| #[trigger]
            servers_from(schema, entries, disabled, source, i, before)->Ok_0.contains(server)
                <==> before.contains(server) || is_declared(
                schema,
                entries,
                disabled,
                source,
                i as int,
                server,
            ),
        forall|k: int|
            i <= k < entries.len() && !disabled.contains(#[trigger] entries[k].0)
                ==> declared_server(schema, entries[k].0, entries[k].1, source) is Ok,
    decreases entries.len() - i,
{
    let all = servers_from(schema, entries, disabled, source, i, before)->Ok_0;
    if i < entries.len() {
        let name = entries[i as int].0;
        let found = declared_server(schema, name, entries[i as int].1, source);
        let next = if disabled.contains(name) || found->Ok_0 is None {
            before
        } else {
            before.push(found->Ok_0->Some_0)
        };
        lemma_servers_from(schema, entries, disabled, source, i + 1, next);
        assert(all == servers_from(schema, entries, disabled, source, i + 1, next)->Ok_0);
        assert forall|server: ServerView| #[trigger]
            all.contains(server) <==> before.contains(server) || is_declared(
                schema,
                entries,
                disabled,
                source,
                i as int,
                server,
            ) by {
            let later = is_declared(schema, entries, disabled, source, i as int + 1, server);
            assert(all.contains(server) <==> next.contains(server) || later);
            if next.contains(server) && !before.contains(server) {
                let n = next.index_of(server);
                assert(n < before.len() ==> before[n] == server);
                assert(declares(schema, entries, disabled, source, i as int, server));
            }
            if later {
                let k = choose|k: int|
                    i + 1 <= k && #[trigger] declares(schema, entries, disabled, source, k, server);
                assert(i <= k && declares(schema, entries, disabled, source, k, server));
            }
            if before.contains(server) {
                let n = before.index_of(server);
                assert(next[n] == server);
            }
            if is_declared(schema, entries, disabled, source, i as int, server) {
                let k = choose|k: int|
                    i <= k && #[trigger] declares(schema, entries, disabled, source, k, server);
                if k == i {
                    assert(next[before.len() as int] == server);
                } else {
                    assert(i + 1 <= k && declares(schema, entries, disabled, source, k, server));
                }
            }
        }
    } else {
        assert forall|server: ServerView| #[trigger]
            all.contains(server) <==> before.contains(server) || is_declared(
                schema,
                entries,
                disabled,
                source,
                i as int,
                server,
            ) by {
            if is_declared(schema, entries, disabled, source, i as int, server) {
                let k = choose|k: int|
                    i <= k && #[trigger] declares(schema, entries, disabled, source, k, server);
                assert(k < entries.len());
            }
        }
    }
}

/// The servers of a section are those that its entries declare and that are not
/// disabled by name. An entry that is disabled, switched off or remote is passed
/// over; any other must declare a server.
pub proof fn law_servers_are_the_declared_ones(
    schema: Schema,
    entries: Seq<(Seq<char>, JsonTree)>,
    disabled: Seq<Seq<char>>,
    source: Seq<u8>,
    servers: Seq<ServerView>,
)
    requires
        servers_from(schema, entries, disabled, source, 0, Seq::empty()) == Ok::<
            Seq<ServerView>,
            ErrorView,
        >(servers),
    ensures
        forall|server: ServerView| #[trigger]
            servers.contains(server) <==> is_declared(
                schema,
                entries,
                disabled,
                source,
                0,
                server,
            ),
        forall|k: int|
            0 <= k < entries.len() && !disabled.contains(#[trigger] entries[k].0)
                ==> declared_server(schema, entries[k].0, entries[k].1, source) is Ok,
{
    lemma_servers_from(schema, entries, disabled, source, 0, Seq::empty());
    assert forall|server: ServerView| #[trigger] servers.contains(server) <==> is_declared(
        schema,
        entries,
        disabled,
        source,
        0,
        server,
    ) by {
        let all = servers_from(schema, entries, disabled, source, 0, Seq::empty())->Ok_0;
        assert(all.contains(server) == servers.contains(server));
        assert(!Seq::<ServerView>::empty().contains(server));
    }
}

/// An entry that is switched off declares no server, whatever else it holds, nor
/// does a remote one.
pub proof fn law_entries_without_a_server(
    name: Seq<char>,
    entries: Seq<(Seq<char>, JsonTree)>,
    source: Seq<u8>,
)
    ensures
        entry(entries, "enabled"@) == Some(JsonTree::Bool(false)) ==> forall|schema: Schema| #[trigger]
            declared_server(schema, name, JsonTree::Object(entries), source) == Ok::<
                Option<ServerView>,
                ErrorView,
            >(None),
        switched_on(entries, name, source) is Ok && entry(entries, "command"@) is None && entry(
            entries,
            "url"@,
        ) is Some ==> omp_server(name, JsonTree::Object(entries), source) == Ok::<
            Option<ServerView>,
            ErrorView,
        >(None),
        switched_on(entries, name, source) is Ok && (entry(entries, "type"@) matches Some(
            JsonTree::Text(kind),
        ) && kind != "local"@) ==> opencode_server(name, JsonTree::Object(entries), source) == Ok::<
            Option<ServerView>,
            ErrorView,
        >(None),
{
}

/// An object has a value under a name: that of its last entry of the name.
pub open spec fn holds(
    entries: Seq<(Seq<char>, JsonTree)>,
    key: Seq<char>,
    value: JsonTree,
) -> bool {
    exists|i: int|
        0 <= i < entries.len() && #[trigger] entries[i] == (key, value) && forall|j: int|
            i < j < entries.len() ==> (#[trigger] entries[j]).0 != key
}

/// An object has nothing under a name.
pub open spec fn lacks(entries: Seq<(Seq<char>, JsonTree)>, key: Seq<char>) -> bool {
    forall|i: int| 0 <= i < entries.len() ==> (#[trigger] entries[i]).0 != key
}

/// What an object has under a name is what its last entry of the name holds.
pub proof fn law_last_entry_counts(
    entries: Seq<(Seq<char>, JsonTree)>,
    key: Seq<char>,
    value: JsonTree,
)
    ensures
        entry(entries, key) == Some(value) <==> holds(entries, key, value),
        entry(entries, key) is None <==> lacks(entries, key),
    decreases entries.len(),
{
    if entries.len() > 0 {
        let front = entries.drop_last();
        let n = entries.len() - 1;
        law_last_entry_counts(front, key, value);
        if entries[n].0 == key {
            if entries[n].1 == value {
                assert(entries[n] == (key, value));
            }
            assert(!lacks(entries, key));
            if holds(entries, key, value) {
                let i = choose|i: int|
                    0 <= i < entries.len() && #[trigger] entries[i] == (key, value) && forall|j: int|
                        i < j < entries.len() ==> (#[trigger] entries[j]).0 != key;
                assert(i == n);
            }
        } else {
            if holds(front, key, value) {
                let i = choose|i: int|
                    0 <= i < front.len() && #[trigger] front[i] == (key, value) && forall|j: int|
                        i < j < front.len() ==> (#[trigger] front[j]).0 != key;
                assert(entries[i] == (key, value));
                assert forall|j: int| i < j < entries.len() implies (#[trigger] entries[j]).0
                    != key by {
                    if j < n {
                        assert(front[j].0 != key);
                    }
                }
            }
            if holds(entries, key, value) {
                let i = choose|i: int|
                    0 <= i < entries.len() && #[trigger] entries[i] == (key, value) && forall|j: int|
                        i < j < entries.len() ==> (#[trigger] entries[j]).0 != key;
                assert(front[i] == (key, value));
                assert forall|j: int| i < j < front.len() implies (#[trigger] front[j]).0 != key by {
                    assert(entries[j].0 != key);
                }
            }
            if lacks(front, key) {
                assert forall|i: int| 0 <= i < entries.len() implies (#[trigger] entries[i]).0
                    != key by {
                    if i < n {
                        assert(front[i].0 != key);
                    }
                }
            }
            if lacks(entries, key) {
                assert forall|i: int| 0 <= i < front.len() implies (#[trigger] front[i]).0
                    != key by {
                    assert(entries[i].0 != key);
                }
            }
        }
    }
}

/// The items are these texts, one by one.
pub open spec fn spells(items: Seq<JsonTree>, all: Seq<Seq<u8>>) -> bool {
    &&& items.len() == all.len()
    &&& forall|i: int|
        0 <= i < items.len() ==> (#[trigger] items[i] matches JsonTree::Text(t) && bytes_of(t)
            == all[i])
}

proof fn lemma_words_spell(items: Seq<JsonTree>, n: nat)
    requires
        n <= items.len(),
    ensures
        match words(items, n) {
            Some(all) => spells(items.take(n as int), all),
            None => exists|i: int| 0 <= i < n && !(#[trigger] items[i] is Text),
        },
    decreases n,
{
    if n > 0 {
        let m = (n - 1) as nat;
        lemma_words_spell(items, m);
        match words(items, m) {
            Some(front) => {
                if let JsonTree::Text(t) = items[n - 1] {
                    let all = front.push(bytes_of(t));
                    assert forall|i: int| 0 <= i < n implies (#[trigger] items.take(n as int)[i]
                        matches JsonTree::Text(t) && bytes_of(t) == all[i]) by {
                        if i < m {
                            assert(items.take(m as int)[i] is Text);
                        }
                    }
                } else {
                    assert(!(items[n - 1] is Text));
                }
            },
            None => {
                let i = choose|i: int| 0 <= i < m && !(#[trigger] items[i] is Text);
                assert(!(items[i] is Text));
            },
        }
    }
}

/// An array of texts is read as these texts, in order; one with anything else in it is
/// refused.
pub proof fn law_texts_are_read(items: Seq<JsonTree>, all: Seq<Seq<u8>>)
    ensures
        words(items, items.len()) == Some(all) <==> spells(items, all),
        words(items, items.len()) is None <==> exists|i: int|
            0 <= i < items.len() && !(#[trigger] items[i] is Text),
{
    lemma_words_spell(items, items.len());
    assert(items.take(items.len() as int) =~= items);
    if let Some(found) = words(items, items.len()) {
        assert forall|i: int| 0 <= i < items.len() implies #[trigger] items[i] is Text by {}
        if spells(items, all) {
            assert forall|i: int| 0 <= i < items.len() implies found[i] == all[i] by {
                assert(items[i] is Text);
            }
            assert(found =~= all);
        }
    } else {
        let i = choose|i: int| 0 <= i < items.len() && !(#[trigger] items[i] is Text);
        assert(!spells(items, all));
    }
}

/// An entry is not switched off.
pub open spec fn is_on(entries: Seq<(Seq<char>, JsonTree)>) -> bool {
    lacks(entries, "enabled"@) || holds(entries, "enabled"@, JsonTree::Bool(true))
}

/// A field is an array of these texts, or is missing and there are none.
pub open spec fn texts_at(
    entries: Seq<(Seq<char>, JsonTree)>,
    key: Seq<char>,
    all: Seq<Seq<u8>>,
) -> bool {
    ||| lacks(entries, key) && all.len() == 0
    ||| exists|items: Seq<JsonTree>| #[trigger]
        holds(entries, key, JsonTree::Array(items)) && spells(items, all)
}

/// A field is an object or is missing.
pub open spec fn object_or_none(entries: Seq<(Seq<char>, JsonTree)>, key: Seq<char>) -> bool {
    ||| lacks(entries, key)
    ||| exists|inner: Seq<(Seq<char>, JsonTree)>| #[trigger]
        holds(entries, key, JsonTree::Object(inner))
}

/// A field is this absolute path, or is missing and there is none.
pub open spec fn path_at(
    entries: Seq<(Seq<char>, JsonTree)>,
    key: Seq<char>,
    found: Option<Seq<u8>>,
) -> bool {
    ||| lacks(entries, key) && found is None
    ||| exists|t: Seq<char>| #[trigger]
        holds(entries, key, JsonTree::Text(t)) && is_absolute(bytes_of(t)) && found == Some(
            bytes_of(t),
        )
}

/// What an entry of an OMP configuration has to hold for it to declare a server, which
/// is then what it holds.
pub open spec fn is_omp_entry(
    name: Seq<char>,
    entries: Seq<(Seq<char>, JsonTree)>,
    source: Seq<u8>,
    server: ServerView,
) -> bool {
    &&& is_on(entries)
    &&& exists|command: Seq<char>| #[trigger]
        holds(entries, "command"@, JsonTree::Text(command)) && server.command == bytes_of(command)
    &&& texts_at(entries, "args"@, server.args)
    &&& object_or_none(entries, "env"@)
    &&& path_at(entries, "cwd"@, server.cwd)
    &&& server.name == name
    &&& server.source == source
}

/// What an entry of an OpenCode configuration has to hold for it to declare a server:
/// its command is the first of the texts, and its arguments are the others.
pub open spec fn is_opencode_entry(
    name: Seq<char>,
    entries: Seq<(Seq<char>, JsonTree)>,
    source: Seq<u8>,
    server: ServerView,
) -> bool {
    &&& is_on(entries)
    &&& holds(entries, "type"@, JsonTree::Text("local"@))
    &&& object_or_none(entries, "environment"@)
    &&& exists|items: Seq<JsonTree>| #[trigger]
        holds(entries, "command"@, JsonTree::Array(items)) && spells(
            items,
            seq![server.command] + server.args,
        )
    &&& server.cwd is None
    &&& server.name == name
    &&& server.source == source
}

proof fn lemma_entry(entries: Seq<(Seq<char>, JsonTree)>, key: Seq<char>)
    ensures
        forall|value: JsonTree| #[trigger]
            holds(entries, key, value) <==> entry(entries, key) == Some(value),
        entry(entries, key) is None <==> lacks(entries, key),
{
    assert forall|value: JsonTree| #[trigger] holds(entries, key, value) <==> entry(entries, key)
        == Some(value) by {
        law_last_entry_counts(entries, key, value);
    }
    law_last_entry_counts(entries, key, JsonTree::Null);
}

proof fn lemma_texts(
    entries: Seq<(Seq<char>, JsonTree)>,
    key: Seq<char>,
    name: Seq<char>,
    source: Seq<u8>,
    all: Seq<Seq<u8>>,
)
    ensures
        string_list(entry(entries, key), key, name, source) == Ok::<Seq<Seq<u8>>, ErrorView>(all)
            <==> texts_at(entries, key, all),
{
    lemma_entry(entries, key);
    match entry(entries, key) {
        None => {
            if all.len() == 0 {
                assert(all =~= Seq::empty());
            }
        },
        Some(value) => {
            assert(holds(entries, key, value));
            if let JsonTree::Array(items) = value {
                law_texts_are_read(items, all);
                assert(holds(entries, key, JsonTree::Array(items)));
            }
        },
    }
}

proof fn lemma_object(
    entries: Seq<(Seq<char>, JsonTree)>,
    key: Seq<char>,
    name: Seq<char>,
    source: Seq<u8>,
)
    ensures
        object_checked(entry(entries, key), key, name, source) is Ok <==> object_or_none(
            entries,
            key,
        ),
{
    lemma_entry(entries, key);
    if let Some(value) = entry(entries, key) {
        assert(holds(entries, key, value));
        if let JsonTree::Object(inner) = value {
            assert(holds(entries, key, JsonTree::Object(inner)));
        }
    }
}

proof fn lemma_path(
    entries: Seq<(Seq<char>, JsonTree)>,
    key: Seq<char>,
    name: Seq<char>,
    source: Seq<u8>,
    found: Option<Seq<u8>>,
)
    ensures
        absolute_path(entry(entries, key), key, name, source) == Ok::<Option<Seq<u8>>, ErrorView>(
            found,
        ) <==> path_at(entries, key, found),
{
    lemma_entry(entries, key);
    if let Some(value) = entry(entries, key) {
        assert(holds(entries, key, value));
        if let JsonTree::Text(t) = value {
            assert(holds(entries, key, JsonTree::Text(t)));
        }
    }
}

/// An entry of an OMP configuration declares a server exactly if it holds one, and is
/// passed over exactly if it is switched off, or has a URL in place of a command. Any
/// other entry is refused.
#[verifier::spinoff_prover]
#[verifier::rlimit(40)]
pub proof fn law_omp_entries(
    name: Seq<char>,
    entries: Seq<(Seq<char>, JsonTree)>,
    source: Seq<u8>,
    server: ServerView,
)
    ensures
        omp_server(name, JsonTree::Object(entries), source) == Ok::<Option<ServerView>, ErrorView>(
            Some(server),
        ) <==> is_omp_entry(name, entries, source, server),
        omp_server(name, JsonTree::Object(entries), source) == Ok::<Option<ServerView>, ErrorView>(
            None,
        ) <==> holds(entries, "enabled"@, JsonTree::Bool(false)) || (is_on(entries) && lacks(
            entries,
            "command"@,
        ) && !lacks(entries, "url"@)),
{
    lemma_entry(entries, "enabled"@);
    lemma_entry(entries, "command"@);
    lemma_entry(entries, "url"@);
    lemma_texts(entries, "args"@, name, source, server.args);
    lemma_object(entries, "env"@, name, source);
    lemma_path(entries, "cwd"@, name, source, server.cwd);
    let made = omp_server(name, JsonTree::Object(entries), source);
    if is_omp_entry(name, entries, source, server) {
        let command = choose|command: Seq<char>| #[trigger]
            holds(entries, "command"@, JsonTree::Text(command)) && server.command == bytes_of(
                command,
            );
        assert(entry(entries, "command"@) == Some(JsonTree::Text(command)));
    }
    if made == Ok::<Option<ServerView>, ErrorView>(Some(server)) {
        let command = entry(entries, "command"@)->0->Text_0;
        assert(holds(entries, "command"@, JsonTree::Text(command)));
    }
}

/// An entry of an OpenCode configuration declares a server exactly if it holds one, and
/// is passed over exactly if it is switched off or of another type. Any other entry is
/// refused.
#[verifier::spinoff_prover]
#[verifier::rlimit(40)]
pub proof fn law_opencode_entries(
    name: Seq<char>,
    entries: Seq<(Seq<char>, JsonTree)>,
    source: Seq<u8>,
    server: ServerView,
)
    ensures
        opencode_server(name, JsonTree::Object(entries), source) == Ok::<
            Option<ServerView>,
            ErrorView,
        >(Some(server)) <==> is_opencode_entry(name, entries, source, server),
        opencode_server(name, JsonTree::Object(entries), source) == Ok::<
            Option<ServerView>,
            ErrorView,
        >(None) <==> holds(entries, "enabled"@, JsonTree::Bool(false)) || (is_on(entries) && exists|
            kind: Seq<char>,
        | #[trigger]
            holds(entries, "type"@, JsonTree::Text(kind)) && kind != "local"@),
{
    lemma_entry(entries, "enabled"@);
    lemma_entry(entries, "type"@);
    lemma_entry(entries, "command"@);
    lemma_object(entries, "environment"@, name, source);
    let made = opencode_server(name, JsonTree::Object(entries), source);
    let all = seq![server.command] + server.args;
    assert(all[0] == server.command);
    assert(all.drop_first() =~= server.args);
    if let Some(JsonTree::Array(items)) = entry(entries, "command"@) {
        law_texts_are_read(items, all);
        lemma_words_length(items, items.len());
        assert(holds(entries, "command"@, JsonTree::Array(items)));
        if let Some(found) = words(items, items.len()) {
            if items.len() > 0 {
                assert(found =~= seq![found[0]] + found.drop_first());
            }
        }
    }
    if is_opencode_entry(name, entries, source, server) {
        let items = choose|items: Seq<JsonTree>| #[trigger]
            holds(entries, "command"@, JsonTree::Array(items)) && spells(items, all);
        assert(entry(entries, "command"@) == Some(JsonTree::Array(items)));
    }
    if let Some(JsonTree::Text(kind)) = entry(entries, "type"@) {
        assert(holds(entries, "type"@, JsonTree::Text(kind)));
    }
}

/// What is no object declares no server and is refused.
pub proof fn law_entries_are_objects(
    schema: Schema,
    name: Seq<char>,
    value: JsonTree,
    source: Seq<u8>,
)
    requires
        !(value is Object),
    ensures
        declared_server(schema, name, value, source) is Err,
{
}

/// The servers of a section come in the order of its entries.
pub proof fn law_servers_keep_their_order(
    schema: Schema,
    entries: Seq<(Seq<char>, JsonTree)>,
    disabled: Seq<Seq<char>>,
    source: Seq<u8>,
    servers: Seq<ServerView>,
) -> (places: Seq<int>)
    requires
        servers_from(schema, entries, disabled, source, 0, Seq::empty()) == Ok::<
            Seq<ServerView>,
            ErrorView,
        >(servers),
    ensures
        places.len() == servers.len(),
        forall|k: int|
            0 <= k < servers.len() ==> declares(
                schema,
                entries,
                disabled,
                source,
                #[trigger] places[k],
                servers[k],
            ),
        forall|k: int, n: int|
            0 <= k < n < places.len() ==> #[trigger] places[k] < #[trigger] places[n],
{
    lemma_places(schema, entries, disabled, source, 0, Seq::empty(), Seq::empty())
}

proof fn lemma_places(
    schema: Schema,
    entries: Seq<(Seq<char>, JsonTree)>,
    disabled: Seq<Seq<char>>,
    source: Seq<u8>,
    i: nat,
    before: Seq<ServerView>,
    taken: Seq<int>,
) -> (places: Seq<int>)
    requires
        servers_from(schema, entries, disabled, source, i, before) is Ok,
        taken.len() == before.len(),
        forall|k: int|
            0 <= k < before.len() ==> #[trigger] taken[k] < i && declares(
                schema,
                entries,
                disabled,
                source,
                taken[k],
                before[k],
            ),
        forall|k: int, n: int|
            0 <= k < n < taken.len() ==> #[trigger] taken[k] < #[trigger] taken[n],
    ensures
        ({
            let servers = servers_from(schema, entries, disabled, source, i, before)->Ok_0;
            &&& places.len() == servers.len()
            &&& forall|k: int|
                0 <= k < servers.len() ==> declares(
                    schema,
                    entries,
                    disabled,
                    source,
                    #[trigger] places[k],
                    servers[k],
                )
            &&& forall|k: int, n: int|
                0 <= k < n < places.len() ==> #[trigger] places[k] < #[trigger] places[n]
        }),
    decreases entries.len() - i,
{
    if i >= entries.len() {
        taken
    } else if disabled.contains(entries[i as int].0) {
        lemma_places(schema, entries, disabled, source, i + 1, before, taken)
    } else {
        match declared_server(schema, entries[i as int].0, entries[i as int].1, source)->Ok_0 {
            None => lemma_places(schema, entries, disabled, source, i + 1, before, taken),
            Some(server) => {
                assert(declares(schema, entries, disabled, source, i as int, server));
                lemma_places(
                    schema,
                    entries,
                    disabled,
                    source,
                    i + 1,
                    before.push(server),
                    taken.push(i as int),
                )
            },
        }
    }
}

proof fn lemma_refused_entry(
    schema: Schema,
    entries: Seq<(Seq<char>, JsonTree)>,
    disabled: Seq<Seq<char>>,
    source: Seq<u8>,
    i: nat,
    before: Seq<ServerView>,
)
    requires
        servers_from(schema, entries, disabled, source, i, before) is Err,
    ensures
        exists|k: int|
            i <= k < entries.len() && !disabled.contains((#[trigger] entries[k]).0)
                && declared_server(schema, entries[k].0, entries[k].1, source) is Err,
    decreases entries.len() - i,
{
    let here = entries[i as int];
    if disabled.contains(here.0) {
        lemma_refused_entry(schema, entries, disabled, source, i + 1, before);
    } else {
        match declared_server(schema, here.0, here.1, source) {
            Err(_) => {
                assert(declared_server(
                    schema,
                    entries[i as int].0,
                    entries[i as int].1,
                    source,
                ) is Err);
            },
            Ok(None) => {
                lemma_refused_entry(schema, entries, disabled, source, i + 1, before);
            },
            Ok(Some(server)) => {
                lemma_refused_entry(schema, entries, disabled, source, i + 1, before.push(server));
            },
        }
    }
}

/// The section in which a configuration declares its servers.
pub open spec fn section_of(schema: Schema) -> Seq<char> {
    match schema {
        Schema::Omp => "mcpServers"@,
        Schema::OpenCode => "mcp"@,
    }
}

/// A name is among those that an OMP configuration switches off.
pub open spec fn is_disabled(
    schema: Schema,
    root: Seq<(Seq<char>, JsonTree)>,
    name: Seq<char>,
) -> bool {
    schema == Schema::Omp && exists|items: Seq<JsonTree>| #[trigger]
        holds(root, "disabledServers"@, JsonTree::Array(items)) && items.contains(
            JsonTree::Text(name),
        )
}

proof fn lemma_names(items: Seq<JsonTree>, n: nat)
    requires
        n <= items.len(),
    ensures
        match names(items, n) {
            Some(all) => all.len() == n && forall|i: int|
                0 <= i < n ==> #[trigger] items[i] == JsonTree::Text(all[i]),
            None => exists|i: int| 0 <= i < n && !(#[trigger] items[i] is Text),
        },
    decreases n,
{
    if n > 0 {
        let m = (n - 1) as nat;
        lemma_names(items, m);
        if names(items, m) is None {
            let i = choose|i: int| 0 <= i < m && !(#[trigger] items[i] is Text);
            assert(!(items[i] is Text));
        } else if !(items[n - 1] is Text) {
            assert(!(items[n - 1] is Text));
        }
    }
}

proof fn lemma_disabled(
    schema: Schema,
    root: Seq<(Seq<char>, JsonTree)>,
    source: Seq<u8>,
    disabled: Seq<Seq<char>>,
    name: Seq<char>,
)
    requires
        schema == Schema::Omp ==> disabled_names(root, source) == Ok::<Seq<Seq<char>>, ErrorView>(
            disabled,
        ),
        schema == Schema::OpenCode ==> disabled.len() == 0,
    ensures
        disabled.contains(name) <==> is_disabled(schema, root, name),
{
    lemma_entry(root, "disabledServers"@);
    if schema == Schema::Omp {
        if let Some(JsonTree::Array(items)) = entry(root, "disabledServers"@) {
            assert(holds(root, "disabledServers"@, JsonTree::Array(items)));
            lemma_names(items, items.len());
            if disabled.contains(name) {
                let k = disabled.index_of(name);
                assert(items[k] == JsonTree::Text(disabled[k]));
            }
            if items.contains(JsonTree::Text(name)) {
                let k = items.index_of(JsonTree::Text(name));
                assert(items[k] == JsonTree::Text(disabled[k]));
            }
        }
    }
}

/// The servers of a configuration are those that the entries of its section declare,
/// but for the names that it switches off. A configuration without the section has
/// none, and where it has one every other entry is a server or is passed over.
pub proof fn law_configurations(
    schema: Schema,
    root: Seq<(Seq<char>, JsonTree)>,
    source: Seq<u8>,
    servers: Seq<ServerView>,
)
    requires
        servers_in(schema, root, source) == Ok::<Seq<ServerView>, ErrorView>(servers),
    ensures
        lacks(root, section_of(schema)) ==> servers.len() == 0,
        forall|entries: Seq<(Seq<char>, JsonTree)>, server: ServerView|
            #![trigger holds(root, section_of(schema), JsonTree::Object(entries)), servers.contains(server)]
            holds(root, section_of(schema), JsonTree::Object(entries)) ==> (servers.contains(server)
                <==> exists|k: int|
                0 <= k < entries.len() && !is_disabled(schema, root, (#[trigger] entries[k]).0)
                    && declared_server(schema, entries[k].0, entries[k].1, source) == Ok::<
                    Option<ServerView>,
                    ErrorView,
                >(Some(server))),
        forall|entries: Seq<(Seq<char>, JsonTree)>, k: int|
            #![trigger holds(root, section_of(schema), JsonTree::Object(entries)), entries[k]]
            holds(root, section_of(schema), JsonTree::Object(entries)) && 0 <= k < entries.len()
                && !is_disabled(schema, root, entries[k].0) ==> declared_server(
                schema,
                entries[k].0,
                entries[k].1,
                source,
            ) is Ok,
        lacks(root, section_of(schema)) || exists|entries: Seq<(Seq<char>, JsonTree)>| #[trigger]
            holds(root, section_of(schema), JsonTree::Object(entries)),
{
    let section = section_of(schema);
    lemma_entry(root, section);
    let disabled = match schema {
        Schema::Omp => disabled_names(root, source)->Ok_0,
        Schema::OpenCode => Seq::empty(),
    };
    assert forall|name: Seq<char>| #[trigger] disabled.contains(name) <==> is_disabled(
        schema,
        root,
        name,
    ) by {
        lemma_disabled(schema, root, source, disabled, name);
    }
    if let Some(JsonTree::Object(found)) = entry(root, section) {
        assert(holds(root, section, JsonTree::Object(found)));
        law_servers_are_the_declared_ones(schema, found, disabled, source, servers);
        assert forall|entries: Seq<(Seq<char>, JsonTree)>, server: ServerView|
            #![trigger holds(root, section, JsonTree::Object(entries)), servers.contains(server)]
            holds(root, section, JsonTree::Object(entries)) implies (servers.contains(server)
            <==> exists|k: int|
            0 <= k < entries.len() && !is_disabled(schema, root, (#[trigger] entries[k]).0)
                && declared_server(schema, entries[k].0, entries[k].1, source) == Ok::<
                Option<ServerView>,
                ErrorView,
            >(Some(server))) by {
            assert(entries == found);
            if servers.contains(server) {
                let k = choose|k: int|
                    0 <= k && #[trigger] declares(schema, found, disabled, source, k, server);
                assert(!disabled.contains(found[k].0));
            }
            if exists|k: int|
                0 <= k < entries.len() && !is_disabled(schema, root, (#[trigger] entries[k]).0)
                    && declared_server(schema, entries[k].0, entries[k].1, source) == Ok::<
                    Option<ServerView>,
                    ErrorView,
                >(Some(server)) {
                let k = choose|k: int|
                    0 <= k < entries.len() && !is_disabled(schema, root, (#[trigger] entries[k]).0)
                        && declared_server(schema, entries[k].0, entries[k].1, source) == Ok::<
                        Option<ServerView>,
                        ErrorView,
                    >(Some(server));
                assert(!disabled.contains(found[k].0));
                assert(declares(schema, found, disabled, source, k, server));
            }
        }
        assert forall|entries: Seq<(Seq<char>, JsonTree)>, k: int|
            #![trigger holds(root, section, JsonTree::Object(entries)), entries[k]]
            holds(root, section, JsonTree::Object(entries)) && 0 <= k < entries.len()
                && !is_disabled(schema, root, entries[k].0) implies declared_server(
            schema,
            entries[k].0,
            entries[k].1,
            source,
        ) is Ok by {
            assert(entries == found);
            assert(!disabled.contains(found[k].0));
        }
    }
}

/// A configuration is refused only where its section is no object, where one of the
/// entries that count is refused, or where the names that it switches off are not an
/// array of texts.
pub proof fn law_configurations_are_owed(
    schema: Schema,
    root: Seq<(Seq<char>, JsonTree)>,
    source: Seq<u8>,
)
    requires
        servers_in(schema, root, source) is Err,
    ensures
        ({
            let section = section_of(schema);
            ||| exists|value: JsonTree| #[trigger]
                holds(root, section, value) && !(value is Object)
            ||| exists|entries: Seq<(Seq<char>, JsonTree)>, k: int|
                #![trigger holds(root, section, JsonTree::Object(entries)), entries[k]]
                holds(root, section, JsonTree::Object(entries)) && 0 <= k < entries.len()
                    && !is_disabled(schema, root, entries[k].0) && declared_server(
                    schema,
                    entries[k].0,
                    entries[k].1,
                    source,
                ) is Err
            ||| schema == Schema::Omp && exists|value: JsonTree| #[trigger]
                holds(root, "disabledServers"@, value) && !(value matches JsonTree::Array(items)
                    && forall|i: int| 0 <= i < items.len() ==> #[trigger] items[i] is Text)
        }),
{
    let section = section_of(schema);
    lemma_entry(root, section);
    lemma_entry(root, "disabledServers"@);
    if schema == Schema::Omp && disabled_names(root, source) is Err {
        let value = entry(root, "disabledServers"@)->0;
        assert(holds(root, "disabledServers"@, value));
        if let JsonTree::Array(items) = value {
            lemma_names(items, items.len());
        }
    } else {
        let disabled = match schema {
            Schema::Omp => disabled_names(root, source)->Ok_0,
            Schema::OpenCode => Seq::empty(),
        };
        let value = entry(root, section)->0;
        assert(holds(root, section, value));
        if let JsonTree::Object(found) = value {
            lemma_refused_entry(schema, found, disabled, source, 0, Seq::empty());
            let k = choose|k: int|
                0 <= k < found.len() && !disabled.contains((#[trigger] found[k]).0)
                    && declared_server(schema, found[k].0, found[k].1, source) is Err;
            lemma_disabled(schema, root, source, disabled, found[k].0);
            assert(holds(root, section, JsonTree::Object(found)));
            assert(found[k].0 == found[k].0);
        }
    }
}

/// A configuration file is read as one JSON object; a file that cannot be read, or does
/// not hold one, is refused.
pub proof fn law_configuration_files(facts: FactsView, schema: Schema, source: Seq<u8>)
    ensures
        configured_servers(facts, schema, source) matches Ok(servers) ==> exists|
            bytes: Seq<u8>,
            root: Seq<(Seq<char>, JsonTree)>,
        | #[trigger]
            holds_object(facts, source, bytes, root) && servers_in(schema, root, source) == Ok::<
                Seq<ServerView>,
                ErrorView,
            >(servers),
        configured_servers(facts, schema, source) matches Err(StopOf::Fail(_)) ==> ({
            ||| bytes_at(facts, source) matches Ok(ReplyOf::Failed(_))
            ||| bytes_at(facts, source) matches Ok(ReplyOf::Got(bytes)) && !(document(
                bytes,
            ) matches Ok(JsonTree::Object(_)))
            ||| exists|bytes: Seq<u8>, root: Seq<(Seq<char>, JsonTree)>| #[trigger]
                holds_object(facts, source, bytes, root) && servers_in(schema, root, source) is Err
        }),
{
    if let Ok(ReplyOf::Got(bytes)) = bytes_at(facts, source) {
        if let Ok(JsonTree::Object(root)) = document(bytes) {
            assert(holds_object(facts, source, bytes, root));
        }
    }
}

/// The file at `source` holds these bytes, and they hold this JSON object.
pub open spec fn holds_object(
    facts: FactsView,
    source: Seq<u8>,
    bytes: Seq<u8>,
    root: Seq<(Seq<char>, JsonTree)>,
) -> bool {
    &&& bytes_at(facts, source) == Ok::<ReplyOf<Seq<u8>, Seq<char>>, StopView>(ReplyOf::Got(bytes))
    &&& document(bytes) == Ok::<JsonTree, Seq<char>>(JsonTree::Object(root))
}

} // verus!
