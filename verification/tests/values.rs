//! Byte strings, paths, texts and failures.
use std::path::{Component, Path, PathBuf};

use sbox::bytes::{bytes_before, bytes_contain, bytes_start_with, split_bytes, text_bytes};
use sbox::env::{Environment, HostEnv};
use sbox::error::{Error, Message};
use sbox::host::{Answer, HostFacts, QuestionOf, ReplyOf, StatOf, StopOf};
use sbox::layout::{
    is_fnm_transient, is_python_interpreter, is_system_path, reject_broad_root,
    top_level_node_modules,
};
use sbox::path::{ComponentOf, HostPath};
use sbox::roots::{dedupe_paths, dedupe_roots};
use sbox::text::{decimal_bytes, parse_number, trimmed, NumberFault};

const SPELLINGS: [&str; 18] = [
    "", "/", "//", ".", "./a", "a", "a/", "a/.", "a/./b", "/a", "/a/", "/a/..", "/a/../b", "/a//b",
    "../a", "a/..", "/a.b", "/a/.b/c.py",
];

fn path(text: &str) -> HostPath {
    HostPath::new(text)
}

fn paths(texts: &[&str]) -> Vec<HostPath> {
    texts.iter().map(|text| path(text)).collect()
}

#[test]
fn splitting_keeps_empty_pieces() {
    assert_eq!(
        split_bytes(b":a::", b":"),
        vec![b"".to_vec(), b"a".to_vec(), b"".to_vec(), b"".to_vec()]
    );
    assert_eq!(split_bytes(b"", b":"), vec![b"".to_vec()]);
    assert_eq!(split_bytes(b"a b\tc", b" \t").len(), 3);
}

#[test]
fn byte_strings_compare_like_dictionaries() {
    assert!(bytes_before(b"a", b"ab"));
    assert!(bytes_before(b"ab", b"b"));
    assert!(!bytes_before(b"b", b"b"));
    assert!(bytes_start_with(b"LC_ALL", b"LC_"));
    assert!(!bytes_start_with(b"LC", b"LC_"));
    assert!(bytes_contain(b"a:b", b':'));
}

#[test]
fn components_are_those_of_std() {
    for text in SPELLINGS {
        let expected: Vec<ComponentOf<Vec<u8>>> = Path::new(text)
            .components()
            .map(|component| match component {
                Component::RootDir => ComponentOf::RootDir,
                Component::CurDir => ComponentOf::CurDir,
                Component::ParentDir => ComponentOf::ParentDir,
                Component::Normal(name) => ComponentOf::Normal(text_bytes(name.to_str().unwrap())),
                Component::Prefix(_) => unreachable!(),
            })
            .collect();
        assert_eq!(path(text).components(), expected, "{text:?}");
    }
}

#[test]
fn parents_ancestors_and_names_are_those_of_std() {
    let own = |p: &Path| path(p.to_str().unwrap());
    for text in SPELLINGS {
        let std_path = Path::new(text);
        assert_eq!(path(text).parent(), std_path.parent().map(own), "{text:?}");
        assert_eq!(
            path(text).ancestors(),
            std_path.ancestors().map(own).collect::<Vec<_>>(),
            "{text:?}"
        );
        assert_eq!(
            path(text).file_name(),
            std_path.file_name().map(|name| text_bytes(name.to_str().unwrap())),
            "{text:?}"
        );
        assert_eq!(path(text).is_absolute(), std_path.is_absolute(), "{text:?}");
    }
}

#[test]
fn paths_join_compare_and_nest_as_in_std() {
    for a in SPELLINGS {
        for b in SPELLINGS {
            let (x, y) = (Path::new(a), Path::new(b));
            assert_eq!(path(a).join(&path(b)), path(x.join(y).to_str().unwrap()), "{a:?} {b:?}");
            assert_eq!(path(a).starts_with(&path(b)), x.starts_with(y), "{a:?} {b:?}");
            assert_eq!(path(a).same(&path(b)), x == y, "{a:?} {b:?}");
            assert_eq!(path(a).before(&path(b)), x < y, "{a:?} {b:?}");
        }
    }
}

#[test]
fn roots_cover_and_do_not_nest() {
    let all = paths(&["/b/c", "/a/x/y", "/b", "/a/x", "/a-b", "/a/x/."]);
    let kept = dedupe_roots(all.clone());
    assert_eq!(kept, paths(&["/a/x", "/a-b", "/b"]));
    assert!(all.iter().all(|p| kept.iter().any(|root| p.starts_with(root))));
    assert_eq!(dedupe_roots(kept.clone()), kept);
    assert_eq!(dedupe_roots(paths(&["/x", "/", "/y"])), paths(&["/"]));
    let mut sorted: Vec<PathBuf> = ["/a/x", "/a-b", "/b"].iter().map(PathBuf::from).collect();
    sorted.sort();
    assert_eq!(
        kept,
        sorted.iter().map(|p| path(p.to_str().unwrap())).collect::<Vec<_>>()
    );
}

#[test]
fn paths_are_listed_once_as_first_spelled() {
    assert_eq!(
        dedupe_paths(paths(&["/b/", "/a", "/b", "/a//", "/b/c"])),
        paths(&["/a", "/b/", "/b/c"])
    );
    assert!(dedupe_paths(Vec::new()).is_empty());
}

#[test]
fn some_paths_are_known_by_their_look() {
    assert!(is_fnm_transient(&path("/run/fnm_multishells/1/bin/node")));
    assert!(!is_fnm_transient(&path("/run/fnm_multishells_not/1")));
    assert!(is_system_path(&path("/lib64/ld.so")));
    assert!(!is_system_path(&path("/library")));
    assert_eq!(
        top_level_node_modules(&path("/a/node_modules/b/node_modules/c")),
        Some(path("/a/node_modules"))
    );
    assert_eq!(top_level_node_modules(&path("/a/b")), None);
    assert!(is_python_interpreter(&path("/x/python3.12"), &path("/y")));
    assert!(is_python_interpreter(&path("/x"), &path("/y/python")));
    assert!(!is_python_interpreter(&path("/x/python2"), &path("/y/pythonic")));
    let opaque = HostPath { bytes: b"/x/python3\xff".to_vec() };
    assert!(!is_python_interpreter(&opaque, &path("/y")));
}

#[test]
fn broad_roots_are_rejected() {
    let home = path("/home/u");
    for broad in ["/", "/home", "/home/", "/home/u", "/home/./u"] {
        assert_eq!(
            reject_broad_root(&path(broad), &home).unwrap_err().message(),
            format!(
                "refusing inferred broad mount {broad}; use --allow-read with a narrower path"
            )
        );
    }
    assert!(reject_broad_root(&path("/home/u/x"), &home).is_ok());
    assert!(reject_broad_root(&path("/srv"), &home).is_ok());
}

#[test]
fn numbers_are_written_and_read() {
    for n in [0u32, 9, 10, 1000, 4294967295] {
        assert_eq!(decimal_bytes(n), n.to_string().into_bytes());
    }
    assert_eq!(parse_number("18446744073709551615"), Ok(u64::MAX));
    assert_eq!(parse_number("+7"), Ok(7));
    assert_eq!(parse_number("007"), Ok(7));
    assert_eq!(parse_number(""), Err(NumberFault::Empty));
    assert_eq!(parse_number("+"), Err(NumberFault::InvalidDigit));
    assert_eq!(parse_number("-1"), Err(NumberFault::InvalidDigit));
    assert_eq!(parse_number("99999999999999999999"), Err(NumberFault::TooLarge));
    assert_eq!(parse_number("9999999999999999999x"), Err(NumberFault::InvalidDigit));
}

#[test]
fn trimming_is_that_of_std() {
    for text in ["", " ", " a b ", "\n0\n", "\u{2003}x\u{3000}", "\u{200b}x", "\u{85}\u{a0}y\u{b}"] {
        assert_eq!(trimmed(text), text.trim(), "{text:?}");
    }
}

#[test]
fn environments_are_listed_by_name() {
    let mut environment = Environment::new();
    for (name, value) in [("B", "1"), ("A", "2"), ("C", "3"), ("B", "4"), ("AB", "5")] {
        environment.insert(text_bytes(name), text_bytes(value));
    }
    let expected: Vec<(Vec<u8>, Vec<u8>)> = [("A", "2"), ("AB", "5"), ("B", "4"), ("C", "3")]
        .iter()
        .map(|(name, value)| (text_bytes(name), text_bytes(value)))
        .collect();
    assert_eq!(environment.entries(), &expected);
    assert_eq!(environment.get(b"B"), Some(&text_bytes("4")));
    assert_eq!(environment.get(b"D"), None);
    let host = HostEnv { variables: vec![(b"A".to_vec(), b"1".to_vec()), (b"A".to_vec(), b"2".to_vec())] };
    assert_eq!(host.get(b"A"), Some(&b"1".to_vec()));
}

#[test]
fn failures_are_told_from_the_outside_in() {
    let error = Error::new(Message::new("it broke"))
        .context(Message::new("cannot open ").path(&path("/x")))
        .context(Message::new("a ").quote("b\"c").text(" and ").word(b"d\te"));
    assert_eq!(error.message(), "a \"b\\\"c\" and \"d\\te\"");
    assert_eq!(error.report(), "a \"b\\\"c\" and \"d\\te\": cannot open /x: it broke");
    assert_eq!(error.copy().report(), error.report());
    let opaque = HostPath { bytes: vec![b'/', 0xff] };
    assert_eq!(Error::new(Message::about(&opaque)).message(), "/\u{fffd}");
    let name = "it's \u{301}";
    assert_eq!(
        Error::new(Message::new("").word(name.as_bytes())).message(),
        format!("{:?}", Path::new(name))
    );
}

#[test]
fn words_that_are_no_text_show_their_bytes() {
    let shown = |word: &[u8]| Error::new(Message::new("").word(word)).message();
    assert_eq!(shown(b"a\xffz"), r#""a\xFFz""#);
    assert_eq!(shown(b"\x80"), r#""\x80""#);
    assert_eq!(shown(b"\xe2\x82a\tb'\"\xc3\xa9\xf0\x9f"), "\"\\xE2\\x82a\\tb'\\\"\u{e9}\\xF0\\x9F\"");
    assert_eq!(shown(b"\xed\xa0\x80"), r#""\xED\xA0\x80""#);
    assert_eq!(shown(b"\xc0\x0f"), r#""\xC0\u{f}""#);
}

#[test]
fn the_last_answer_counts() {
    let mut facts = HostFacts::new();
    let question = || QuestionOf::Stat(path("/x"));
    match facts.stat(&path("/x")) {
        Err(StopOf::Ask(asked)) => assert_eq!(asked, question()),
        other => panic!("unexpected {:?}", other),
    }
    facts.record(question(), Answer::Path(ReplyOf::Got(path("/x"))));
    assert!(facts.stat(&path("/x")).is_err());
    facts.record(question(), Answer::Stat(StatOf::File(1)));
    facts.record(question(), Answer::Stat(StatOf::Directory(2)));
    assert_eq!(facts.is_dir(&path("/x")).unwrap(), true);
    assert_eq!(facts.is_file(&path("/x")).unwrap(), false);
    assert_eq!(facts.is_present(&path("/x")).unwrap(), true);
}
