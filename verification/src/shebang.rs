//! Scripts and the interpreters that their first lines name.
use vstd::prelude::*;
use vstd::slice::slice_subrange;
use vstd::string::*;

use crate::bytes::{
    bytes_of, bytes_start_with, copy_bytes, lemma_split_apart, lemma_split_nonempty,
    lemma_split_whole, split, split_bytes,
};
use crate::error::{failure, path, text, word, Error, ErrorView, Message, MessageView};
use crate::host::{
    bytes_at, canonical_of, fail, host_error, host_failure, is_file, outcome, stop_context,
    FactsView, HostFacts, ReplyOf, Stop, StopOf, StopView,
};
use crate::layout::{
    all_narrow, executable_layout, find_executable_layout, law_executable_mounts_are_narrow,
    no_layout, Layout, LayoutView,
};
use crate::path::{components, is_absolute, HostPath};
use crate::resolve::{ensure_executable, executable_at, resolve_executable, resolved};
use crate::views::views;

verus! {

broadcast use crate::views::group_views;

pub const HASH: u8 = 0x23;

pub const BANG: u8 = 0x21;

pub const DASH: u8 = 0x2d;

pub const SPACE: u8 = 0x20;

pub const TAB: u8 = 0x09;

pub const LINE_FEED: u8 = 0x0a;

pub const FORM_FEED: u8 = 0x0c;

pub const CARRIAGE_RETURN: u8 = 0x0d;

/// The bytes that part the words of a line.
pub open spec fn blanks() -> Seq<u8> {
    seq![SPACE, TAB, LINE_FEED, FORM_FEED, CARRIAGE_RETURN]
}

/// The pieces that are not empty.
pub open spec fn words_of(pieces: Seq<Seq<u8>>) -> Seq<Seq<u8>>
    decreases pieces.len(),
{
    if pieces.len() == 0 {
        Seq::empty()
    } else if pieces.last().len() == 0 {
        words_of(pieces.drop_last())
    } else {
        words_of(pieces.drop_last()).push(pieces.last())
    }
}

/// The words that follow `#!` on the first line of a script.
pub open spec fn first_line_words(bytes: Seq<u8>) -> Seq<Seq<u8>> {
    words_of(split(split(bytes.skip(2), seq![LINE_FEED])[0], blanks()))
}

pub open spec fn is_script(bytes: Seq<u8>) -> bool {
    seq![HASH, BANG].is_prefix_of(bytes)
}

/// What is left once the options in front are dropped.
pub open spec fn past_options(args: Seq<Seq<u8>>) -> Seq<Seq<u8>>
    decreases args.len(),
{
    if args.len() > 0 && args[0].len() > 0 && args[0][0] == DASH {
        past_options(args.drop_first())
    } else {
        args
    }
}

/// The interpreter looks the real one up on the search path.
pub open spec fn is_env(interpreter: Seq<u8>) -> bool {
    components(interpreter) == components(bytes_of("/usr/bin/env"@))
}

/// An interpreter and its arguments.
#[derive(Clone, Debug, PartialEq, Eq)]
pub struct Shebang {
    pub interpreter: HostPath,
    pub args: Vec<Vec<u8>>,
}

pub struct ShebangView {
    pub interpreter: Seq<u8>,
    pub args: Seq<Seq<u8>>,
}

impl View for Shebang {
    type V = ShebangView;

    open spec fn view(&self) -> ShebangView {
        ShebangView { interpreter: self.interpreter@, args: views(self.args@) }
    }
}

/// The interpreter that a file's bytes name: none for a file that is no script.
/// The options of `env` itself are left out.
pub open spec fn shebang(p: Seq<u8>, bytes: Seq<u8>) -> Result<Option<ShebangView>, ErrorView> {
    let words = first_line_words(bytes);
    if !is_script(bytes) {
        Ok(None)
    } else if words.len() == 0 {
        Err(failure(seq![text("empty shebang in "@)].push(path(p))))
    } else if !is_absolute(words[0]) {
        Err(failure(seq![text("relative shebang interpreter in "@)].push(path(p))))
    } else {
        Ok(
            Some(
                ShebangView {
                    interpreter: words[0],
                    args: if is_env(words[0]) {
                        past_options(words.drop_first())
                    } else {
                        words.drop_first()
                    },
                },
            ),
        )
    }
}

fn split_words(line: &[u8]) -> (r: Vec<Vec<u8>>)
    ensures
        views(r@) == words_of(split(line@, blanks())),
{
    let pieces = split_bytes(line, &[SPACE, TAB, LINE_FEED, FORM_FEED, CARRIAGE_RETURN]);
    assert([SPACE, TAB, LINE_FEED, FORM_FEED, CARRIAGE_RETURN]@ =~= blanks());
    let ghost all = views(pieces@);
    let mut words: Vec<Vec<u8>> = Vec::new();
    let mut i: usize = 0;
    assert(all.take(0) =~= Seq::empty());
    while i < pieces.len()
        invariant
            i <= pieces.len(),
            all == views(pieces@),
            views(words@) == words_of(all.take(i as int)),
        decreases pieces.len() - i,
    {
        assert(all.take(i + 1).drop_last() =~= all.take(i as int));
        assert(all.take(i + 1).last() == pieces@[i as int]@);
        if pieces[i].len() > 0 {
            words.push(copy_bytes(pieces[i].as_slice()));
        }
        i += 1;
    }
    assert(all.take(all.len() as int) =~= all);
    words
}

fn drop_options(args: Vec<Vec<u8>>) -> (r: Vec<Vec<u8>>)
    ensures
        views(r@) == past_options(views(args@)),
{
    let ghost all = views(args@);
    let mut rest = args;
    while rest.len() > 0 && rest[0].len() > 0 && rest[0][0] == DASH
        invariant
            past_options(views(rest@)) == past_options(all),
        decreases rest.len(),
    {
        let ghost before = views(rest@);
        assert(before[0] == rest@[0]@);
        rest.remove(0);
        assert(views(rest@) =~= before.drop_first());
    }
    assert(rest@.len() > 0 ==> views(rest@)[0] == rest@[0]@);
    rest
}

/// Reads the interpreter out of the bytes of the file at `p`.
pub fn parse_shebang(p: &HostPath, bytes: &[u8]) -> (r: Result<Option<Shebang>, Error>)
    ensures
        match r {
            Ok(Some(found)) => shebang(p@, bytes@) == Ok::<Option<ShebangView>, ErrorView>(
                Some(found@),
            ),
            Ok(None) => shebang(p@, bytes@) == Ok::<Option<ShebangView>, ErrorView>(None),
            Err(error) => shebang(p@, bytes@) == Err::<Option<ShebangView>, ErrorView>(error@),
        },
{
    assert([HASH, BANG]@ =~= seq![HASH, BANG]);
    if !bytes_start_with(bytes, &[HASH, BANG]) {
        return Ok(None);
    }
    let body = slice_subrange(bytes, 2, bytes.len());
    assert(body@ =~= bytes@.skip(2));
    let lines = split_bytes(body, &[LINE_FEED]);
    proof {
        assert([LINE_FEED]@ =~= seq![LINE_FEED]);
        lemma_split_nonempty(body@, seq![LINE_FEED]);
        assert(views(lines@)[0] == lines@[0]@);
    }
    let mut words = split_words(lines[0].as_slice());
    let ghost all = views(words@);
    assert(all == first_line_words(bytes@));
    if words.len() == 0 {
        return Err(Error::new(Message::new("empty shebang in ").path(p)));
    }
    let first = words.remove(0);
    assert(first@ == all[0]);
    assert(views(words@) =~= all.drop_first());
    let interpreter = HostPath { bytes: first };
    if !interpreter.is_absolute() {
        return Err(Error::new(Message::new("relative shebang interpreter in ").path(p)));
    }
    let args = if interpreter.same(&HostPath::new("/usr/bin/env")) {
        drop_options(words)
    } else {
        words
    };
    Ok(Some(Shebang { interpreter, args }))
}

/// The interpreter of the file at `p`, if `p` is a file at all.
pub open spec fn shebang_at(facts: FactsView, p: Seq<u8>) -> Result<Option<ShebangView>, StopView> {
    match is_file(facts, p) {
        Err(stop) => Err(stop),
        Ok(false) => Ok(None),
        Ok(true) => match bytes_at(facts, p) {
            Err(stop) => Err(stop),
            Ok(ReplyOf::Failed(why)) => fail(host_failure(why)),
            Ok(ReplyOf::Got(bytes)) => match shebang(p, bytes) {
                Ok(found) => Ok(found),
                Err(error) => fail(error),
            },
        },
    }
}

pub fn read_shebang(p: &HostPath, host: &HostFacts) -> (r: Result<Option<Shebang>, Stop>)
    ensures
        crate::host::option_outcome(r) == shebang_at(host@, p@),
{
    match host.is_file(p) {
        Err(stop) => Err(stop),
        Ok(false) => Ok(None),
        Ok(true) => match host.read(p) {
            Err(stop) => Err(stop),
            Ok(ReplyOf::Failed(why)) => Err(StopOf::Fail(host_error(why))),
            Ok(ReplyOf::Got(bytes)) => match parse_shebang(p, bytes.as_slice()) {
                Ok(found) => Ok(found),
                Err(error) => Err(StopOf::Fail(error)),
            },
        },
    }
}

/// The executable that runs a script, `label` telling whose script it is.
pub open spec fn interpreter_of(
    facts: FactsView,
    found: ShebangView,
    host_path: Seq<u8>,
    label: MessageView,
) -> Result<Seq<u8>, StopView> {
    let unresolved = label.push(text(" has unresolved shebang interpreter "@));
    if is_env(found.interpreter) {
        if found.args.len() == 0 {
            fail(failure(label.push(text(" has an env shebang without an interpreter"@))))
        } else {
            match resolved(facts, found.args[0], host_path, None) {
                Ok(lexical) => Ok(lexical),
                Err(stop) => Err(stop_context(unresolved.push(word(found.args[0])), stop)),
            }
        }
    } else {
        match executable_at(facts, found.interpreter) {
            Ok(_) => Ok(found.interpreter),
            Err(stop) => Err(stop_context(unresolved.push(path(found.interpreter)), stop)),
        }
    }
}

fn find_interpreter(
    found: &Shebang,
    host_path: &[u8],
    label: &Message,
    host: &HostFacts,
) -> (r: Result<HostPath, Stop>)
    ensures
        outcome(r) == interpreter_of(host@, found@, host_path@, label@),
{
    if found.interpreter.same(&HostPath::new("/usr/bin/env")) {
        if found.args.len() == 0 {
            return Err(
                StopOf::Fail(
                    Error::new(label.copy().text(" has an env shebang without an interpreter")),
                ),
            );
        }
        assert(found@.args[0] == found.args@[0]@);
        match resolve_executable(found.args[0].as_slice(), host_path, None, host) {
            Ok(lexical) => Ok(lexical),
            Err(stop) => Err(
                stop.context(
                    label.copy().text(" has unresolved shebang interpreter ").word(
                        found.args[0].as_slice(),
                    ),
                ),
            ),
        }
    } else {
        match ensure_executable(&found.interpreter, host) {
            Ok(_) => Ok(found.interpreter.copy()),
            Err(stop) => Err(
                stop.context(
                    label.copy().text(" has unresolved shebang interpreter ").path(
                        &found.interpreter,
                    ),
                ),
            ),
        }
    }
}

/// What the interpreter of a script needs; nothing if there is none.
pub open spec fn shebang_layout(
    facts: FactsView,
    script: Seq<u8>,
    host_path: Seq<u8>,
    home: Seq<u8>,
    label: MessageView,
) -> Result<LayoutView, StopView> {
    match shebang_at(facts, script) {
        Err(stop) => Err(
            stop_context(
                (seq![text("cannot inspect shebang for "@)] + label).push(text(": "@)).push(
                    path(script),
                ),
                stop,
            ),
        ),
        Ok(None) => Ok(no_layout()),
        Ok(Some(found)) => match interpreter_of(facts, found, host_path, label) {
            Err(stop) => Err(stop),
            Ok(lexical) => match canonical_of(facts, lexical) {
                Err(stop) => Err(stop),
                Ok(ReplyOf::Failed(why)) => fail(host_failure(why)),
                Ok(ReplyOf::Got(canonical)) => executable_layout(facts, lexical, canonical, home),
            },
        },
    }
}

pub fn add_shebang_runtime(
    script: &HostPath,
    host_path: &[u8],
    home: &HostPath,
    label: &Message,
    host: &HostFacts,
) -> (r: Result<Layout, Stop>)
    ensures
        outcome(r) == shebang_layout(host@, script@, host_path@, home@, label@),
{
    let found = match read_shebang(script, host) {
        Err(stop) => {
            return Err(
                stop.context(
                    Message::new("cannot inspect shebang for ").then_all(label.copy()).text(
                        ": ",
                    ).path(script),
                ),
            );
        },
        Ok(None) => {
            return Ok(Layout::new());
        },
        Ok(Some(found)) => found,
    };
    match find_interpreter(&found, host_path, label, host) {
        Err(stop) => Err(stop),
        Ok(lexical) => match host.canonical(&lexical) {
            Err(stop) => Err(stop),
            Ok(ReplyOf::Failed(why)) => Err(StopOf::Fail(host_error(why))),
            Ok(ReplyOf::Got(canonical)) => find_executable_layout(&lexical, canonical, home, host),
        },
    }
}

/// Nothing that is mounted for an interpreter is the whole file system, all
/// homes, or the user's whole home.
pub proof fn law_interpreter_mounts_are_narrow(
    facts: FactsView,
    script: Seq<u8>,
    host_path: Seq<u8>,
    home: Seq<u8>,
    label: MessageView,
)
    ensures
        all_narrow(shebang_layout(facts, script, host_path, home, label), home),
{
    if let Ok(Some(found)) = shebang_at(facts, script) {
        if let Ok(lexical) = interpreter_of(facts, found, host_path, label) {
            if let Ok(ReplyOf::Got(canonical)) = canonical_of(facts, lexical) {
                law_executable_mounts_are_narrow(facts, lexical, canonical, home);
            }
        }
    }
}

/// A byte that parts words: a space, a tab, a line feed, a form feed or a carriage
/// return.
pub open spec fn parts_words(b: u8) -> bool {
    b == 0x20 || b == 0x09 || b == 0x0a || b == 0x0c || b == 0x0d
}

/// The words of a line.
pub open spec fn line_words(line: Seq<u8>) -> Seq<Seq<u8>> {
    words_of(split(line, blanks()))
}

proof fn lemma_blanks(b: u8)
    ensures
        blanks().contains(b) <==> parts_words(b),
{
    let all = blanks();
    assert(all[0] == SPACE && all[1] == TAB && all[2] == LINE_FEED && all[3] == FORM_FEED && all[4]
        == CARRIAGE_RETURN);
}

proof fn lemma_words_joined(a: Seq<Seq<u8>>, b: Seq<Seq<u8>>)
    ensures
        words_of(a + b) == words_of(a) + words_of(b),
    decreases b.len(),
{
    if b.len() == 0 {
        assert(a + b =~= a);
        assert(words_of(a) + Seq::<Seq<u8>>::empty() =~= words_of(a));
    } else {
        assert((a + b).drop_last() =~= a + b.drop_last());
        assert((a + b).last() == b.last());
        lemma_words_joined(a, b.drop_last());
        let front = words_of(b.drop_last());
        assert((words_of(a) + front).push(b.last()) =~= words_of(a) + front.push(b.last()));
    }
}

proof fn lemma_words_apart(s: Seq<u8>, separator: u8, t: Seq<u8>)
    requires
        parts_words(separator),
    ensures
        line_words(s.push(separator) + t) == line_words(s) + line_words(t),
{
    lemma_blanks(separator);
    lemma_split_apart(s, blanks(), separator, t);
    lemma_words_joined(split(s, blanks()), split(t, blanks()));
}

proof fn lemma_no_words(gap: Seq<u8>)
    requires
        forall|i: int| 0 <= i < gap.len() ==> parts_words(#[trigger] gap[i]),
    ensures
        line_words(gap) == Seq::<Seq<u8>>::empty(),
    decreases gap.len(),
{
    reveal_with_fuel(words_of, 2);
    if gap.len() == 0 {
        assert(gap =~= Seq::<u8>::empty());
        assert(split(gap, blanks()) =~= seq![Seq::<u8>::empty()]);
        assert(seq![Seq::<u8>::empty()].drop_last() =~= Seq::empty());
    } else {
        let front = gap.drop_last();
        assert forall|i: int| 0 <= i < front.len() implies parts_words(#[trigger] front[i]) by {
            assert(parts_words(gap[i]));
        }
        lemma_no_words(front);
        assert(parts_words(gap[gap.len() - 1]));
        lemma_words_apart(front, gap.last(), Seq::empty());
        assert(front.push(gap.last()) + Seq::<u8>::empty() =~= gap);
        lemma_split_whole(Seq::empty(), blanks());
        assert(seq![Seq::<u8>::empty()].drop_last() =~= Seq::empty());
        assert(line_words(Seq::empty()) =~= Seq::empty());
    }
}

proof fn lemma_one_word(word: Seq<u8>)
    requires
        word.len() > 0,
        forall|i: int| 0 <= i < word.len() ==> !parts_words(#[trigger] word[i]),
    ensures
        line_words(word) == seq![word],
{
    assert forall|i: int| 0 <= i < word.len() implies !blanks().contains(#[trigger] word[i]) by {
        lemma_blanks(word[i]);
    }
    lemma_split_whole(word, blanks());
    reveal_with_fuel(words_of, 2);
    assert(seq![word].drop_last() =~= Seq::empty());
    assert(Seq::<Seq<u8>>::empty().push(word) =~= seq![word]);
}

/// A line of blanks has no words. The first word of any other line is what stands
/// between the blanks in front and the next blank, and the other words are those of
/// what is left.
pub proof fn law_words(gap: Seq<u8>, word: Seq<u8>, rest: Seq<u8>)
    requires
        forall|i: int| 0 <= i < gap.len() ==> parts_words(#[trigger] gap[i]),
        word.len() > 0,
        forall|i: int| 0 <= i < word.len() ==> !parts_words(#[trigger] word[i]),
        rest.len() > 0 ==> parts_words(rest[0]),
    ensures
        line_words(gap) == Seq::<Seq<u8>>::empty(),
        line_words(gap + word + rest) == seq![word] + line_words(rest),
{
    lemma_no_words(gap);
    lemma_one_word(word);
    let tail = word + rest;
    assert(line_words(tail) == seq![word] + line_words(rest)) by {
        if rest.len() == 0 {
            assert(tail =~= word);
            assert forall|i: int| 0 <= i < rest.len() implies parts_words(#[trigger] rest[i]) by {}
            lemma_no_words(rest);
            assert(seq![word] + Seq::<Seq<u8>>::empty() =~= seq![word]);
        } else {
            let last = rest.drop_first();
            assert(tail =~= word.push(rest[0]) + last);
            assert(rest =~= Seq::<u8>::empty().push(rest[0]) + last);
            lemma_words_apart(word, rest[0], last);
            lemma_words_apart(Seq::empty(), rest[0], last);
            lemma_no_words(Seq::empty());
            assert(Seq::<Seq<u8>>::empty() + line_words(last) =~= line_words(last));
        }
    }
    if gap.len() == 0 {
        assert(gap + word + rest =~= tail);
    } else {
        let front = gap.drop_last();
        assert forall|i: int| 0 <= i < front.len() implies parts_words(#[trigger] front[i]) by {
            assert(parts_words(gap[i]));
        }
        lemma_no_words(front);
        assert(parts_words(gap[gap.len() - 1]));
        assert(gap + word + rest =~= front.push(gap.last()) + tail);
        lemma_words_apart(front, gap.last(), tail);
        assert(Seq::<Seq<u8>>::empty() + line_words(tail) =~= line_words(tail));
    }
}

/// The words that name an interpreter are those behind `#!`, up to the end of the
/// line or of the file.
pub proof fn law_first_line(line: Seq<u8>, more: Seq<u8>)
    requires
        !line.contains(0x0a),
        more.len() > 0 ==> more[0] == 0x0a,
    ensures
        first_line_words(seq![0x23u8, 0x21u8] + line + more) == line_words(line),
{
    let bytes = seq![0x23u8, 0x21u8] + line + more;
    let ends = seq![LINE_FEED];
    assert(ends[0] == 0x0a);
    assert forall|i: int| 0 <= i < line.len() implies !ends.contains(#[trigger] line[i]) by {
        assert(line.contains(line[i]));
    }
    lemma_split_whole(line, ends);
    if more.len() == 0 {
        assert(bytes.skip(2) =~= line);
    } else {
        assert(bytes.skip(2) =~= line.push(more[0]) + more.drop_first());
        lemma_split_apart(line, ends, more[0], more.drop_first());
        assert(split(bytes.skip(2), ends)[0] == line);
    }
}

/// What is left of the words once the options in front are dropped starts with the
/// first word that is none, and holds all the words from there on.
pub proof fn law_options_are_dropped(options: Seq<Seq<u8>>, rest: Seq<Seq<u8>>)
    requires
        forall|i: int|
            0 <= i < options.len() ==> (#[trigger] options[i]).len() > 0 && options[i][0] == 0x2d,
        rest.len() > 0 ==> !(rest[0].len() > 0 && rest[0][0] == 0x2d),
    ensures
        past_options(options + rest) == rest,
    decreases options.len(),
{
    let all = options + rest;
    if options.len() == 0 {
        assert(all =~= rest);
    } else {
        assert(all[0] == options[0]);
        assert(all.drop_first() =~= options.drop_first() + rest);
        assert forall|i: int| 0 <= i < options.drop_first().len() implies (
        #[trigger] options.drop_first()[i]).len() > 0 && options.drop_first()[i][0] == 0x2d by {
            assert(options[i + 1].len() > 0);
        }
        law_options_are_dropped(options.drop_first(), rest);
    }
}

/// A file that does not start with `#!` names no interpreter. One that does names the
/// first word of its first line, which must be there and be absolute; what follows is
/// handed to it, but for the options of `env`.
pub proof fn law_shebangs(p: Seq<u8>, bytes: Seq<u8>)
    ensures
        !(bytes.len() >= 2 && bytes[0] == 0x23 && bytes[1] == 0x21) ==> shebang(p, bytes) == Ok::<
            Option<ShebangView>,
            ErrorView,
        >(None),
        bytes.len() >= 2 && bytes[0] == 0x23 && bytes[1] == 0x21 ==> {
            let words = first_line_words(bytes);
            if words.len() == 0 {
                shebang(p, bytes) == Err::<Option<ShebangView>, ErrorView>(
                    failure(seq![text("empty shebang in "@), path(p)]),
                )
            } else if !is_absolute(words[0]) {
                shebang(p, bytes) == Err::<Option<ShebangView>, ErrorView>(
                    failure(seq![text("relative shebang interpreter in "@), path(p)]),
                )
            } else {
                shebang(p, bytes) matches Ok(Some(found)) && found.interpreter == words[0] && (
                components(words[0]) != components(bytes_of("/usr/bin/env"@)) ==> found.args
                    == words.skip(1)) && (components(words[0]) == components(
                    bytes_of("/usr/bin/env"@),
                ) ==> found.args == past_options(words.skip(1)))
            }
        },
{
    let mark = seq![HASH, BANG];
    if is_script(bytes) {
        assert(mark[0] == bytes[0] && mark[1] == bytes[1]);
    }
    if bytes.len() >= 2 && bytes[0] == 0x23 && bytes[1] == 0x21 {
        assert(mark =~= bytes.subrange(0, 2));
        let words = first_line_words(bytes);
        assert(seq![text("empty shebang in "@)].push(path(p)) =~= seq![
            text("empty shebang in "@),
            path(p),
        ]);
        assert(seq![text("relative shebang interpreter in "@)].push(path(p)) =~= seq![
            text("relative shebang interpreter in "@),
            path(p),
        ]);
        if words.len() > 0 {
            assert(words.skip(1) =~= words.drop_first());
        }
    }
}

} // verus!
