//! What the library knows of the host, and how it asks for more.
//!
//! Decisions are taken over recorded answers alone. A decision that meets a
//! question without an answer stops and hands the question out; once the
//! answer is recorded the decision is taken again from the start.
use vstd::prelude::*;
use vstd::string::*;

use crate::bytes::bytes_equal;
use crate::config::{ConfigFaultOf, RuleView, UserConfig};
use crate::error::{failure, text, Error, ErrorView, Message};
use crate::path::HostPath;
use crate::views::views;

verus! {

broadcast use crate::views::group_views;

/// What a path leads to, links followed, with its mode bits; `T` says why it
/// leads nowhere.
#[derive(Clone, Debug, PartialEq, Eq)]
pub enum StatOf<T> {
    Absent(T),
    File(u32),
    Directory(u32),
    Other(u32),
}

pub type Stat = StatOf<String>;

impl View for StatOf<String> {
    type V = StatOf<Seq<char>>;

    open spec fn view(&self) -> StatOf<Seq<char>> {
        match *self {
            StatOf::Absent(why) => StatOf::Absent(why@),
            StatOf::File(mode) => StatOf::File(mode),
            StatOf::Directory(mode) => StatOf::Directory(mode),
            StatOf::Other(mode) => StatOf::Other(mode),
        }
    }
}

/// What the host gave, or its word on why it did not.
#[derive(Clone, Debug, PartialEq, Eq)]
pub enum ReplyOf<V, T> {
    Got(V),
    Failed(T),
}

pub type Reply<V> = ReplyOf<V, String>;

impl<V: View> View for ReplyOf<V, String> {
    type V = ReplyOf<V::V, Seq<char>>;

    open spec fn view(&self) -> ReplyOf<V::V, Seq<char>> {
        match *self {
            ReplyOf::Got(value) => ReplyOf::Got(value@),
            ReplyOf::Failed(why) => ReplyOf::Failed(why@),
        }
    }
}

#[derive(Clone, Debug, PartialEq, Eq)]
pub enum QuestionOf<P> {
    /// What does the path lead to?
    Stat(P),
    /// What is its canonical form?
    Canonical(P),
    /// What bytes does the file hold?
    Read(P),
    /// What text does the file hold?
    ReadText(P),
    /// What paths does the directory hold?
    List(P),
    /// Which user owns it?
    Owner(P),
    /// What rules does the user configuration at the path hold?
    Config(P),
    /// Where does the process stand?
    CurrentDir,
}

pub type Question = QuestionOf<HostPath>;

pub type QuestionView = QuestionOf<Seq<u8>>;

impl View for QuestionOf<HostPath> {
    type V = QuestionView;

    open spec fn view(&self) -> QuestionView {
        match *self {
            QuestionOf::Stat(path) => QuestionOf::Stat(path@),
            QuestionOf::Canonical(path) => QuestionOf::Canonical(path@),
            QuestionOf::Read(path) => QuestionOf::Read(path@),
            QuestionOf::ReadText(path) => QuestionOf::ReadText(path@),
            QuestionOf::List(path) => QuestionOf::List(path@),
            QuestionOf::Owner(path) => QuestionOf::Owner(path@),
            QuestionOf::Config(path) => QuestionOf::Config(path@),
            QuestionOf::CurrentDir => QuestionOf::CurrentDir,
        }
    }
}

/// Answers, each kind to one kind of question; `Path` answers two.
#[derive(Debug)]
pub enum Answer {
    Stat(Stat),
    Path(Reply<HostPath>),
    Bytes(Reply<Vec<u8>>),
    Text(Reply<String>),
    /// `None` for a directory that cannot be listed.
    Listing(Option<Vec<Reply<HostPath>>>),
    Owner(Reply<u32>),
    Config(Result<UserConfig, ConfigFaultOf<String>>),
}

pub enum AnswerView {
    Stat(StatOf<Seq<char>>),
    Path(ReplyOf<Seq<u8>, Seq<char>>),
    Bytes(ReplyOf<Seq<u8>, Seq<char>>),
    Text(ReplyOf<Seq<char>, Seq<char>>),
    Listing(Option<Seq<ReplyOf<Seq<u8>, Seq<char>>>>),
    Owner(ReplyOf<u32, Seq<char>>),
    Config(Result<Seq<RuleView>, ConfigFaultOf<Seq<char>>>),
}

impl View for Answer {
    type V = AnswerView;

    open spec fn view(&self) -> AnswerView {
        match *self {
            Answer::Stat(stat) => AnswerView::Stat(stat@),
            Answer::Path(reply) => AnswerView::Path(reply@),
            Answer::Bytes(reply) => AnswerView::Bytes(reply@),
            Answer::Text(reply) => AnswerView::Text(reply@),
            Answer::Listing(None) => AnswerView::Listing(None),
            Answer::Listing(Some(entries)) => AnswerView::Listing(Some(views(entries@))),
            Answer::Owner(reply) => AnswerView::Owner(reply@),
            Answer::Config(Ok(config)) => AnswerView::Config(Ok(config@)),
            Answer::Config(Err(fault)) => AnswerView::Config(Err(fault@)),
        }
    }
}

/// Why a decision stopped short: for want of an answer, or for good.
#[derive(Clone, Debug, PartialEq, Eq)]
pub enum StopOf<Q, E> {
    Ask(Q),
    Fail(E),
}

pub type Stop = StopOf<Question, Error>;

pub type StopView = StopOf<QuestionView, ErrorView>;

impl View for StopOf<Question, Error> {
    type V = StopView;

    open spec fn view(&self) -> StopView {
        match *self {
            StopOf::Ask(question) => StopOf::Ask(question@),
            StopOf::Fail(error) => StopOf::Fail(error@),
        }
    }
}

/// The answers so far, in the order in which they came.
pub type FactsView = Seq<(QuestionView, AnswerView)>;

/// The last answer to a question.
pub open spec fn answer_to(facts: FactsView, question: QuestionView) -> Option<AnswerView>
    decreases facts.len(),
{
    if facts.len() == 0 {
        None
    } else if facts.last().0 == question {
        Some(facts.last().1)
    } else {
        answer_to(facts.drop_last(), question)
    }
}

/// A decision's outcome in the abstract.
pub open spec fn outcome<T: View>(r: Result<T, Stop>) -> Result<T::V, StopView> {
    match r {
        Ok(value) => Ok(value@),
        Err(stop) => Err(stop@),
    }
}

pub open spec fn list_outcome<T: View>(r: Result<Vec<T>, Stop>) -> Result<Seq<T::V>, StopView> {
    match r {
        Ok(items) => Ok(views(items@)),
        Err(stop) => Err(stop@),
    }
}

pub open spec fn option_outcome<T: View>(r: Result<Option<T>, Stop>) -> Result<
    Option<T::V>,
    StopView,
> {
    match r {
        Ok(Some(value)) => Ok(Some(value@)),
        Ok(None) => Ok(None),
        Err(stop) => Err(stop@),
    }
}

pub open spec fn ask<T>(question: QuestionView) -> Result<T, StopView> {
    Err(StopOf::Ask(question))
}

pub open spec fn fail<T>(error: ErrorView) -> Result<T, StopView> {
    Err(StopOf::Fail(error))
}

/// A failure in the host's own words.
pub open spec fn host_failure(why: Seq<char>) -> ErrorView {
    failure(seq![text(why)])
}

/// A stop seen from further out: questions pass unchanged.
pub open spec fn stop_context(
    message: crate::error::MessageView,
    stop: StopView,
) -> StopView {
    match stop {
        StopOf::Ask(question) => StopOf::Ask(question),
        StopOf::Fail(error) => StopOf::Fail(crate::error::in_context(message, error)),
    }
}

pub open spec fn stat_of(facts: FactsView, path: Seq<u8>) -> Result<StatOf<Seq<char>>, StopView> {
    match answer_to(facts, QuestionOf::Stat(path)) {
        Some(AnswerView::Stat(stat)) => Ok(stat),
        _ => ask(QuestionOf::Stat(path)),
    }
}

pub open spec fn canonical_of(facts: FactsView, path: Seq<u8>) -> Result<
    ReplyOf<Seq<u8>, Seq<char>>,
    StopView,
> {
    match answer_to(facts, QuestionOf::Canonical(path)) {
        Some(AnswerView::Path(reply)) => Ok(reply),
        _ => ask(QuestionOf::Canonical(path)),
    }
}

pub open spec fn bytes_at(facts: FactsView, path: Seq<u8>) -> Result<
    ReplyOf<Seq<u8>, Seq<char>>,
    StopView,
> {
    match answer_to(facts, QuestionOf::Read(path)) {
        Some(AnswerView::Bytes(reply)) => Ok(reply),
        _ => ask(QuestionOf::Read(path)),
    }
}

pub open spec fn text_at(facts: FactsView, path: Seq<u8>) -> Result<
    ReplyOf<Seq<char>, Seq<char>>,
    StopView,
> {
    match answer_to(facts, QuestionOf::ReadText(path)) {
        Some(AnswerView::Text(reply)) => Ok(reply),
        _ => ask(QuestionOf::ReadText(path)),
    }
}

pub open spec fn entries_of(facts: FactsView, path: Seq<u8>) -> Result<
    Option<Seq<ReplyOf<Seq<u8>, Seq<char>>>>,
    StopView,
> {
    match answer_to(facts, QuestionOf::List(path)) {
        Some(AnswerView::Listing(entries)) => Ok(entries),
        _ => ask(QuestionOf::List(path)),
    }
}

pub open spec fn owner_of(facts: FactsView, path: Seq<u8>) -> Result<
    ReplyOf<u32, Seq<char>>,
    StopView,
> {
    match answer_to(facts, QuestionOf::Owner(path)) {
        Some(AnswerView::Owner(reply)) => Ok(reply),
        _ => ask(QuestionOf::Owner(path)),
    }
}

pub open spec fn config_at(facts: FactsView, path: Seq<u8>) -> Result<
    Result<Seq<RuleView>, ConfigFaultOf<Seq<char>>>,
    StopView,
> {
    match answer_to(facts, QuestionOf::Config(path)) {
        Some(AnswerView::Config(config)) => Ok(config),
        _ => ask(QuestionOf::Config(path)),
    }
}

pub open spec fn current_dir(facts: FactsView) -> Result<ReplyOf<Seq<u8>, Seq<char>>, StopView> {
    match answer_to(facts, QuestionOf::CurrentDir) {
        Some(AnswerView::Path(reply)) => Ok(reply),
        _ => ask(QuestionOf::CurrentDir),
    }
}

pub open spec fn is_file(facts: FactsView, path: Seq<u8>) -> Result<bool, StopView> {
    match stat_of(facts, path) {
        Ok(stat) => Ok(stat is File),
        Err(stop) => Err(stop),
    }
}

pub open spec fn is_dir(facts: FactsView, path: Seq<u8>) -> Result<bool, StopView> {
    match stat_of(facts, path) {
        Ok(stat) => Ok(stat is Directory),
        Err(stop) => Err(stop),
    }
}

pub open spec fn is_present(facts: FactsView, path: Seq<u8>) -> Result<bool, StopView> {
    match stat_of(facts, path) {
        Ok(stat) => Ok(!(stat is Absent)),
        Err(stop) => Err(stop),
    }
}

fn same_question(a: &Question, b: &Question) -> (r: bool)
    ensures
        r == (a@ == b@),
{
    match (a, b) {
        (QuestionOf::Stat(x), QuestionOf::Stat(y)) => bytes_equal(
            x.bytes.as_slice(),
            y.bytes.as_slice(),
        ),
        (QuestionOf::Canonical(x), QuestionOf::Canonical(y)) => bytes_equal(
            x.bytes.as_slice(),
            y.bytes.as_slice(),
        ),
        (QuestionOf::Read(x), QuestionOf::Read(y)) => bytes_equal(
            x.bytes.as_slice(),
            y.bytes.as_slice(),
        ),
        (QuestionOf::ReadText(x), QuestionOf::ReadText(y)) => bytes_equal(
            x.bytes.as_slice(),
            y.bytes.as_slice(),
        ),
        (QuestionOf::List(x), QuestionOf::List(y)) => bytes_equal(
            x.bytes.as_slice(),
            y.bytes.as_slice(),
        ),
        (QuestionOf::Owner(x), QuestionOf::Owner(y)) => bytes_equal(
            x.bytes.as_slice(),
            y.bytes.as_slice(),
        ),
        (QuestionOf::Config(x), QuestionOf::Config(y)) => bytes_equal(
            x.bytes.as_slice(),
            y.bytes.as_slice(),
        ),
        (QuestionOf::CurrentDir, QuestionOf::CurrentDir) => true,
        _ => false,
    }
}

/// The answers that the host has given.
#[derive(Debug)]
pub struct HostFacts {
    pub answers: Vec<(Question, Answer)>,
}

impl View for HostFacts {
    type V = FactsView;

    open spec fn view(&self) -> FactsView {
        views(self.answers@)
    }
}

impl Stop {
    /// The stop seen from further out; questions pass unchanged.
    pub fn context(self, message: Message) -> (r: Stop)
        ensures
            r@ == stop_context(message@, self@),
    {
        match self {
            StopOf::Ask(question) => StopOf::Ask(question),
            StopOf::Fail(error) => StopOf::Fail(error.context(message)),
        }
    }
}

/// A failure in the host's own words.
pub fn host_error(why: &String) -> (r: Error)
    ensures
        r@ == host_failure(why@),
{
    Error::new(Message::new(why.as_str()))
}

impl HostFacts {
    pub fn new() -> (r: HostFacts)
        ensures
            r@ == FactsView::empty(),
    {
        let facts = HostFacts { answers: Vec::new() };
        assert(facts@ =~= FactsView::empty());
        facts
    }

    /// Takes note of an answer.
    pub fn record(&mut self, question: Question, answer: Answer)
        ensures
            final(self)@ == old(self)@.push((question@, answer@)),
    {
        self.answers.push((question, answer));
    }

    pub fn find<'a>(&'a self, question: &Question) -> (r: Option<&'a Answer>)
        ensures
            match r {
                Some(answer) => answer_to(self@, question@) == Some(answer@),
                None => answer_to(self@, question@) is None,
            },
    {
        let mut k: usize = self.answers.len();
        assert(self@.take(k as int) =~= self@);
        while k > 0
            invariant
                k <= self.answers.len(),
                answer_to(self@, question@) == answer_to(self@.take(k as int), question@),
            decreases k,
        {
            assert(self@.take(k as int).last() == self.answers@[k - 1]@);
            assert(self@.take(k as int).drop_last() =~= self@.take(k - 1));
            if same_question(&self.answers[k - 1].0, question) {
                return Some(&self.answers[k - 1].1);
            }
            k -= 1;
        }
        None
    }

    pub fn stat<'a>(&'a self, path: &HostPath) -> (r: Result<&'a Stat, Stop>)
        ensures
            outcome(r) == stat_of(self@, path@),
    {
        let question = QuestionOf::Stat(path.copy());
        match self.find(&question) {
            Some(Answer::Stat(stat)) => Ok(stat),
            _ => Err(StopOf::Ask(question)),
        }
    }

    pub fn is_file(&self, path: &HostPath) -> (r: Result<bool, Stop>)
        ensures
            outcome(r) == is_file(self@, path@),
    {
        match self.stat(path) {
            Ok(stat) => Ok(matches!(stat, StatOf::File(_))),
            Err(stop) => Err(stop),
        }
    }

    pub fn is_dir(&self, path: &HostPath) -> (r: Result<bool, Stop>)
        ensures
            outcome(r) == is_dir(self@, path@),
    {
        match self.stat(path) {
            Ok(stat) => Ok(matches!(stat, StatOf::Directory(_))),
            Err(stop) => Err(stop),
        }
    }

    pub fn is_present(&self, path: &HostPath) -> (r: Result<bool, Stop>)
        ensures
            outcome(r) == is_present(self@, path@),
    {
        match self.stat(path) {
            Ok(stat) => Ok(!matches!(stat, StatOf::Absent(_))),
            Err(stop) => Err(stop),
        }
    }

    pub fn canonical<'a>(&'a self, path: &HostPath) -> (r: Result<&'a Reply<HostPath>, Stop>)
        ensures
            outcome(r) == canonical_of(self@, path@),
    {
        let question = QuestionOf::Canonical(path.copy());
        match self.find(&question) {
            Some(Answer::Path(reply)) => Ok(reply),
            _ => Err(StopOf::Ask(question)),
        }
    }

    pub fn read<'a>(&'a self, path: &HostPath) -> (r: Result<&'a Reply<Vec<u8>>, Stop>)
        ensures
            outcome(r) == bytes_at(self@, path@),
    {
        let question = QuestionOf::Read(path.copy());
        match self.find(&question) {
            Some(Answer::Bytes(reply)) => Ok(reply),
            _ => Err(StopOf::Ask(question)),
        }
    }

    pub fn read_text<'a>(&'a self, path: &HostPath) -> (r: Result<&'a Reply<String>, Stop>)
        ensures
            outcome(r) == text_at(self@, path@),
    {
        let question = QuestionOf::ReadText(path.copy());
        match self.find(&question) {
            Some(Answer::Text(reply)) => Ok(reply),
            _ => Err(StopOf::Ask(question)),
        }
    }

    pub fn entries<'a>(&'a self, path: &HostPath) -> (r: Result<
        Option<&'a Vec<Reply<HostPath>>>,
        Stop,
    >)
        ensures
            match r {
                Ok(Some(entries)) => entries_of(self@, path@) == Ok::<
                    Option<Seq<ReplyOf<Seq<u8>, Seq<char>>>>,
                    StopView,
                >(Some(views(entries@))),
                Ok(None) => entries_of(self@, path@) == Ok::<
                    Option<Seq<ReplyOf<Seq<u8>, Seq<char>>>>,
                    StopView,
                >(None),
                Err(stop) => entries_of(self@, path@) == Err::<
                    Option<Seq<ReplyOf<Seq<u8>, Seq<char>>>>,
                    StopView,
                >(stop@),
            },
    {
        let question = QuestionOf::List(path.copy());
        match self.find(&question) {
            Some(Answer::Listing(Some(entries))) => Ok(Some(entries)),
            Some(Answer::Listing(None)) => Ok(None),
            _ => Err(StopOf::Ask(question)),
        }
    }

    pub fn owner<'a>(&'a self, path: &HostPath) -> (r: Result<&'a Reply<u32>, Stop>)
        ensures
            outcome(r) == owner_of(self@, path@),
    {
        let question = QuestionOf::Owner(path.copy());
        match self.find(&question) {
            Some(Answer::Owner(reply)) => Ok(reply),
            _ => Err(StopOf::Ask(question)),
        }
    }

    pub fn config<'a>(&'a self, path: &HostPath) -> (r: Result<
        &'a Result<UserConfig, ConfigFaultOf<String>>,
        Stop,
    >)
        ensures
            match r {
                Ok(Ok(config)) => config_at(self@, path@) == Ok::<
                    Result<Seq<RuleView>, ConfigFaultOf<Seq<char>>>,
                    StopView,
                >(Ok(config@)),
                Ok(Err(fault)) => config_at(self@, path@) == Ok::<
                    Result<Seq<RuleView>, ConfigFaultOf<Seq<char>>>,
                    StopView,
                >(Err(fault@)),
                Err(stop) => config_at(self@, path@) == Err::<
                    Result<Seq<RuleView>, ConfigFaultOf<Seq<char>>>,
                    StopView,
                >(stop@),
            },
    {
        let question = QuestionOf::Config(path.copy());
        match self.find(&question) {
            Some(Answer::Config(config)) => Ok(config),
            _ => Err(StopOf::Ask(question)),
        }
    }

    pub fn current_dir<'a>(&'a self) -> (r: Result<&'a Reply<HostPath>, Stop>)
        ensures
            outcome(r) == current_dir(self@),
    {
        let question = QuestionOf::CurrentDir;
        match self.find(&question) {
            Some(Answer::Path(reply)) => Ok(reply),
            _ => Err(StopOf::Ask(question)),
        }
    }
}

/// The answer to a question is the one that was recorded last, and recording it
/// leaves the answers to all other questions as they were.
pub proof fn law_last_answer_counts(facts: FactsView, question: QuestionView, answer: AnswerView)
    ensures
        answer_to(facts.push((question, answer)), question) == Some(answer),
        forall|other: QuestionView|
            other != question ==> #[trigger] answer_to(facts.push((question, answer)), other)
                == answer_to(facts, other),
{
    assert(facts.push((question, answer)).drop_last() =~= facts);
}

/// What was recorded is what is read: of a path, what it leads to, its canonical form,
/// its bytes, its text, its entries, its owner and its rules; and of the process, where
/// it stands.
pub proof fn law_answers_are_read_back(facts: FactsView, p: Seq<u8>)
    ensures
        forall|stat: StatOf<Seq<char>>|
            stat_of(
                #[trigger] facts.push((QuestionOf::Stat(p), AnswerView::Stat(stat))),
                p,
            ) == Ok::<StatOf<Seq<char>>, StopView>(stat),
        forall|reply: ReplyOf<Seq<u8>, Seq<char>>|
            canonical_of(
                #[trigger] facts.push((QuestionOf::Canonical(p), AnswerView::Path(reply))),
                p,
            ) == Ok::<ReplyOf<Seq<u8>, Seq<char>>, StopView>(reply),
        forall|reply: ReplyOf<Seq<u8>, Seq<char>>|
            bytes_at(
                #[trigger] facts.push((QuestionOf::Read(p), AnswerView::Bytes(reply))),
                p,
            ) == Ok::<ReplyOf<Seq<u8>, Seq<char>>, StopView>(reply),
        forall|reply: ReplyOf<Seq<char>, Seq<char>>|
            text_at(
                #[trigger] facts.push((QuestionOf::ReadText(p), AnswerView::Text(reply))),
                p,
            ) == Ok::<ReplyOf<Seq<char>, Seq<char>>, StopView>(reply),
        forall|entries: Option<Seq<ReplyOf<Seq<u8>, Seq<char>>>>|
            entries_of(
                #[trigger] facts.push((QuestionOf::List(p), AnswerView::Listing(entries))),
                p,
            ) == Ok::<Option<Seq<ReplyOf<Seq<u8>, Seq<char>>>>, StopView>(entries),
        forall|reply: ReplyOf<u32, Seq<char>>|
            owner_of(
                #[trigger] facts.push((QuestionOf::Owner(p), AnswerView::Owner(reply))),
                p,
            ) == Ok::<ReplyOf<u32, Seq<char>>, StopView>(reply),
        forall|config: Result<Seq<RuleView>, ConfigFaultOf<Seq<char>>>|
            config_at(
                #[trigger] facts.push((QuestionOf::Config(p), AnswerView::Config(config))),
                p,
            ) == Ok::<Result<Seq<RuleView>, ConfigFaultOf<Seq<char>>>, StopView>(config),
        forall|reply: ReplyOf<Seq<u8>, Seq<char>>|
            current_dir(
                #[trigger] facts.push((QuestionOf::CurrentDir, AnswerView::Path(reply))),
            ) == Ok::<ReplyOf<Seq<u8>, Seq<char>>, StopView>(reply),
{
}

/// A path that leads to a file is present and no directory; one that leads to a
/// directory is present and no file; one that leads to something else is present and
/// neither; and one that leads nowhere is none of these. Without an answer, the host is
/// asked.
pub proof fn law_what_a_path_leads_to(facts: FactsView, p: Seq<u8>)
    ensures
        match stat_of(facts, p) {
            Ok(stat) => ({
                let file = stat matches StatOf::File(_);
                let dir = stat matches StatOf::Directory(_);
                let other = stat matches StatOf::Other(_);
                &&& is_file(facts, p) == Ok::<bool, StopView>(file)
                &&& is_dir(facts, p) == Ok::<bool, StopView>(dir)
                &&& is_present(facts, p) == Ok::<bool, StopView>(file || dir || other)
            }),
            Err(stop) => ({
                &&& stop == StopOf::<QuestionView, ErrorView>::Ask(QuestionOf::Stat(p))
                &&& is_file(facts, p) == Err::<bool, StopView>(stop)
                &&& is_dir(facts, p) == Err::<bool, StopView>(stop)
                &&& is_present(facts, p) == Err::<bool, StopView>(stop)
            }),
        },
{
}

} // verus!
