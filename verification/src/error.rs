//! Failures, kept as what they say: a chain of messages, the outermost first.
use vstd::prelude::*;
use vstd::slice::slice_subrange;
use vstd::string::*;
use vstd::utf8::{decode_utf8, valid_utf8};

use crate::bytes::{copy_bytes, is_utf8};
use crate::path::HostPath;
use crate::views::views;

verus! {

broadcast use crate::views::group_views;

/// A part of a message, over paths `P`, host words `B` and texts `T`.
#[derive(Clone, Debug, PartialEq, Eq)]
pub enum PieceOf<P, B, T> {
    /// Shown as it stands.
    Text(T),
    /// A path, shown as well as its bytes can be read.
    Path(P),
    /// A host word, shown in quotes, bytes that cannot be read by their numbers.
    Word(B),
    /// A text, shown in quotes.
    Quote(T),
}

pub type Piece = PieceOf<HostPath, Vec<u8>, String>;

pub type PieceView = PieceOf<Seq<u8>, Seq<u8>, Seq<char>>;

pub type MessageView = Seq<PieceView>;

pub type ErrorView = Seq<MessageView>;

impl View for PieceOf<HostPath, Vec<u8>, String> {
    type V = PieceView;

    open spec fn view(&self) -> PieceView {
        match *self {
            PieceOf::Text(text) => PieceOf::Text(text@),
            PieceOf::Path(path) => PieceOf::Path(path@),
            PieceOf::Word(word) => PieceOf::Word(word@),
            PieceOf::Quote(text) => PieceOf::Quote(text@),
        }
    }
}

pub open spec fn text(t: Seq<char>) -> PieceView {
    PieceOf::Text(t)
}

pub open spec fn path(p: Seq<u8>) -> PieceView {
    PieceOf::Path(p)
}

pub open spec fn word(w: Seq<u8>) -> PieceView {
    PieceOf::Word(w)
}

pub open spec fn quote(t: Seq<char>) -> PieceView {
    PieceOf::Quote(t)
}

/// A failure with one message.
pub open spec fn failure(message: MessageView) -> ErrorView {
    seq![message]
}

/// `cause`, told in the context of `message`.
pub open spec fn in_context(message: MessageView, cause: ErrorView) -> ErrorView {
    seq![message] + cause
}

/// One message, piece by piece.
#[derive(Clone, Debug, PartialEq, Eq)]
pub struct Message {
    pub pieces: Vec<Piece>,
}

impl View for Message {
    type V = MessageView;

    open spec fn view(&self) -> MessageView {
        views(self.pieces@)
    }
}

impl Message {
    pub fn new(head: &str) -> (r: Message)
        ensures
            r@ == seq![text(head@)],
    {
        Message { pieces: Vec::new() }.text(head)
    }

    /// A message that starts with a path.
    pub fn about(head: &HostPath) -> (r: Message)
        ensures
            r@ == seq![path(head@)],
    {
        Message { pieces: Vec::new() }.path(head)
    }

    pub fn text(self, t: &str) -> (r: Message)
        ensures
            r@ == self@.push(text(t@)),
    {
        let mut pieces = self.pieces;
        pieces.push(PieceOf::Text(t.to_owned()));
        Message { pieces }
    }

    pub fn path(self, p: &HostPath) -> (r: Message)
        ensures
            r@ == self@.push(path(p@)),
    {
        let mut pieces = self.pieces;
        pieces.push(PieceOf::Path(p.copy()));
        Message { pieces }
    }

    pub fn word(self, w: &[u8]) -> (r: Message)
        ensures
            r@ == self@.push(word(w@)),
    {
        let mut pieces = self.pieces;
        pieces.push(PieceOf::Word(copy_bytes(w)));
        Message { pieces }
    }

    pub fn quote(self, t: &str) -> (r: Message)
        ensures
            r@ == self@.push(quote(t@)),
    {
        let mut pieces = self.pieces;
        pieces.push(PieceOf::Quote(t.to_owned()));
        Message { pieces }
    }

    /// A message for each piece of `rest` in turn, after those of `self`.
    pub fn then_all(self, rest: Message) -> (r: Message)
        ensures
            r@ == self@ + rest@,
    {
        let mut pieces = self.pieces;
        let mut more = rest.pieces;
        pieces.append(&mut more);
        Message { pieces }
    }
}

/// A failure: what went wrong, told from the outside in.
#[derive(Clone, Debug, PartialEq, Eq)]
pub struct Error {
    pub chain: Vec<Message>,
}

impl View for Error {
    type V = ErrorView;

    open spec fn view(&self) -> ErrorView {
        views(self.chain@)
    }
}

/// The characters of a text that its bytes spell, where they are UTF-8; a
/// replacement character stands for each sequence that is not.
pub uninterp spec fn lossy_text(bytes: Seq<u8>) -> Seq<char>;

/// `String::from_utf8_lossy`. Claimed: the text depends on the bytes alone, and
/// is what they spell where they are valid UTF-8.
#[verifier::external_body]
fn read_lossy(bytes: &[u8]) -> (r: String)
    ensures
        r@ == lossy_text(bytes@),
        valid_utf8(bytes@) ==> r@ == decode_utf8(bytes@),
{
    String::from_utf8_lossy(bytes).into_owned()
}

/// A text in the form in which `{:?}` shows it.
pub uninterp spec fn quoted_text(t: Seq<char>) -> Seq<char>;

/// `format!` with `{:?}` on a string. Claimed: what comes out depends on the
/// text alone.
#[verifier::external_body]
fn quote_text(t: &str) -> (r: String)
    ensures
        r@ == quoted_text(t@),
{
    format!("{:?}", t)
}

/// A text in the form in which `{:?}` shows it as a path.
pub uninterp spec fn quoted_word(t: Seq<char>) -> Seq<char>;

/// `format!` with `{:?}` on a path, which is shown as any host word is. Claimed:
/// what comes out depends on the text alone.
#[verifier::external_body]
fn quote_word(t: &str) -> (r: String)
    ensures
        r@ == quoted_word(t@),
{
    format!("{:?}", std::path::Path::new(t))
}

/// The length of the longest prefix of `bytes`, of `n` bytes at most, that is
/// UTF-8.
pub open spec fn readable_length(bytes: Seq<u8>, n: nat) -> nat
    decreases n,
{
    if n == 0 || valid_utf8(bytes.take(n as int)) {
        n
    } else {
        readable_length(bytes, (n - 1) as nat)
    }
}

/// A digit to the base of sixteen.
pub open spec fn hex_digit(n: u8) -> Seq<char> {
    "0123456789ABCDEF"@.subrange(n as int, n + 1)
}

/// A byte by its number.
pub open spec fn byte_escape(b: u8) -> Seq<char> {
    "\\x"@ + hex_digit(b / 16) + hex_digit(b % 16)
}

/// A quoted text without its quotes.
pub open spec fn between_quotes(quoted: Seq<char>) -> Seq<char> {
    if quoted.len() < 2 {
        quoted
    } else {
        quoted.subrange(1, quoted.len() - 1)
    }
}

/// Bytes as they are shown between quotes: what can be read as text is, and each
/// byte that cannot be is shown by its number.
pub open spec fn shown_bytes(bytes: Seq<u8>) -> Seq<char>
    decreases bytes.len(),
{
    let n = readable_length(bytes, bytes.len());
    let front = between_quotes(quoted_word(decode_utf8(bytes.take(n as int))));
    if n >= bytes.len() {
        front
    } else {
        front + byte_escape(bytes[n as int]) + shown_bytes(bytes.skip(n as int + 1))
    }
}

/// A host word in quotes.
pub open spec fn word_text(bytes: Seq<u8>) -> Seq<char> {
    if valid_utf8(bytes) {
        quoted_word(decode_utf8(bytes))
    } else {
        "\""@ + shown_bytes(bytes) + "\""@
    }
}

fn measure_readable(bytes: &[u8]) -> (r: usize)
    ensures
        r == readable_length(bytes@, bytes@.len()),
        r <= bytes@.len(),
        valid_utf8(bytes@.take(r as int)),
{
    let mut n: usize = bytes.len();
    while n > 0 && !is_utf8(slice_subrange(bytes, 0, n))
        invariant
            n <= bytes@.len(),
            readable_length(bytes@, bytes@.len()) == readable_length(bytes@, n as nat),
        decreases n,
    {
        assert(bytes@.subrange(0, n as int) =~= bytes@.take(n as int));
        n -= 1;
    }
    assert(bytes@.subrange(0, n as int) =~= bytes@.take(n as int));
    n
}

fn show_byte(b: u8) -> (r: String)
    ensures
        r@ == byte_escape(b),
{
    proof {
        reveal_strlit("0123456789ABCDEF");
    }
    let digits = "0123456789ABCDEF";
    let high = (b / 16) as usize;
    let low = (b % 16) as usize;
    let mut out = "\\x".to_owned();
    out.append(digits.substring_char(high, high + 1));
    out.append(digits.substring_char(low, low + 1));
    out
}

fn strip_quotes(quoted: &str) -> (r: &str)
    ensures
        r@ == between_quotes(quoted@),
{
    let length = quoted.unicode_len();
    if length < 2 {
        quoted
    } else {
        quoted.substring_char(1, length - 1)
    }
}

fn show_word(bytes: &[u8]) -> (r: String)
    ensures
        r@ == word_text(bytes@),
{
    if is_utf8(bytes) {
        return quote_word(read_lossy(bytes).as_str());
    }
    let mut out = "\"".to_owned();
    let mut start: usize = 0;
    assert(bytes@.skip(0) =~= bytes@);
    loop
        invariant_except_break
            start <= bytes@.len(),
            "\""@ + shown_bytes(bytes@) == out@ + shown_bytes(bytes@.skip(start as int)),
        ensures
            "\""@ + shown_bytes(bytes@) == out@,
        decreases bytes@.len() - start,
    {
        let rest = slice_subrange(bytes, start, bytes.len());
        assert(rest@ =~= bytes@.skip(start as int));
        let ghost before = out@;
        let n = measure_readable(rest);
        let front = slice_subrange(rest, 0, n);
        assert(front@ =~= rest@.take(n as int));
        let quoted = quote_word(read_lossy(front).as_str());
        out.append(strip_quotes(quoted.as_str()));
        if n >= rest.len() {
            break;
        }
        out.append(show_byte(rest[n]).as_str());
        assert(rest@.skip(n + 1) =~= bytes@.skip(start + n + 1));
        assert(before + shown_bytes(rest@) =~= out@ + shown_bytes(rest@.skip(n + 1)));
        start = start + n + 1;
    }
    out.append("\"");
    out
}

pub open spec fn piece_text(piece: PieceView) -> Seq<char> {
    match piece {
        PieceOf::Text(t) => t,
        PieceOf::Path(p) => lossy_text(p),
        PieceOf::Word(w) => word_text(w),
        PieceOf::Quote(t) => quoted_text(t),
    }
}

/// A message in words.
pub open spec fn message_text(message: MessageView) -> Seq<char>
    decreases message.len(),
{
    if message.len() == 0 {
        Seq::empty()
    } else {
        message_text(message.drop_last()) + piece_text(message.last())
    }
}

/// The messages of a chain, the outermost first, with colons between them.
pub open spec fn chain_text(chain: ErrorView) -> Seq<char>
    decreases chain.len(),
{
    if chain.len() == 0 {
        Seq::empty()
    } else if chain.len() == 1 {
        message_text(chain[0])
    } else {
        chain_text(chain.drop_last()) + ": "@ + message_text(chain.last())
    }
}

impl Message {
    pub fn to_text(&self) -> (r: String)
        ensures
            r@ == message_text(self@),
    {
        let mut out = String::new();
        let mut i: usize = 0;
        assert(self@.take(0) =~= Seq::empty());
        while i < self.pieces.len()
            invariant
                i <= self.pieces.len(),
                out@ == message_text(self@.take(i as int)),
            decreases self.pieces.len() - i,
        {
            assert(self@.take(i + 1).drop_last() =~= self@.take(i as int));
            assert(self@.take(i + 1).last() == self.pieces@[i as int]@);
            match &self.pieces[i] {
                PieceOf::Text(t) => {
                    out.append(t.as_str());
                },
                PieceOf::Path(p) => {
                    out.append(read_lossy(p.bytes.as_slice()).as_str());
                },
                PieceOf::Word(w) => {
                    out.append(show_word(w.as_slice()).as_str());
                },
                PieceOf::Quote(t) => {
                    out.append(quote_text(t.as_str()).as_str());
                },
            }
            i += 1;
        }
        assert(self@.take(self@.len() as int) =~= self@);
        out
    }
}

impl Error {
    pub fn new(message: Message) -> (r: Error)
        ensures
            r@ == failure(message@),
    {
        let mut chain: Vec<Message> = Vec::new();
        chain.push(message);
        assert(views(chain@) =~= failure(message@));
        Error { chain }
    }

    /// The failure seen from further out.
    pub fn context(self, message: Message) -> (r: Error)
        ensures
            r@ == in_context(message@, self@),
    {
        let mut chain: Vec<Message> = Vec::new();
        let mut rest = self.chain;
        chain.push(message);
        chain.append(&mut rest);
        assert(views(chain@) =~= in_context(message@, self@));
        Error { chain }
    }

    pub fn copy(&self) -> (r: Error)
        ensures
            r@ == self@,
    {
        let mut chain: Vec<Message> = Vec::new();
        let mut i: usize = 0;
        while i < self.chain.len()
            invariant
                i <= self.chain.len(),
                views(chain@) == self@.take(i as int),
            decreases self.chain.len() - i,
        {
            assert(self@.take(i + 1) =~= self@.take(i as int).push(self.chain@[i as int]@));
            chain.push(self.chain[i].copy());
            i += 1;
        }
        assert(self@.take(self@.len() as int) =~= self@);
        Error { chain }
    }

    /// The outermost message.
    pub fn message(&self) -> (r: String)
        ensures
            r@ == (if self@.len() == 0 {
                Seq::<char>::empty()
            } else {
                message_text(self@[0])
            }),
    {
        if self.chain.len() == 0 {
            String::new()
        } else {
            self.chain[0].to_text()
        }
    }

    /// The whole chain on one line.
    pub fn report(&self) -> (r: String)
        ensures
            r@ == chain_text(self@),
    {
        let mut out = String::new();
        let mut i: usize = 0;
        assert(self@.take(0) =~= Seq::empty());
        while i < self.chain.len()
            invariant
                i <= self.chain.len(),
                out@ == chain_text(self@.take(i as int)),
            decreases self.chain.len() - i,
        {
            assert(self@.take(i + 1).drop_last() =~= self@.take(i as int));
            assert(self@.take(i + 1).last() == self.chain@[i as int]@);
            if i > 0 {
                out.append(": ");
            }
            out.append(self.chain[i].to_text().as_str());
            assert(i == 0 ==> out@ =~= message_text(self@.take(1)[0]));
            i += 1;
        }
        assert(self@.take(self@.len() as int) =~= self@);
        out
    }
}

impl Message {
    pub fn copy(&self) -> (r: Message)
        ensures
            r@ == self@,
    {
        let mut message = Message { pieces: Vec::new() };
        let mut i: usize = 0;
        assert(self@.take(0) =~= Seq::empty());
        while i < self.pieces.len()
            invariant
                i <= self.pieces.len(),
                message@ == self@.take(i as int),
            decreases self.pieces.len() - i,
        {
            assert(self@.take(i + 1) =~= self@.take(i as int).push(self.pieces@[i as int]@));
            message =
            match &self.pieces[i] {
                PieceOf::Text(t) => message.text(t.as_str()),
                PieceOf::Path(p) => message.path(p),
                PieceOf::Word(w) => message.word(w.as_slice()),
                PieceOf::Quote(t) => message.quote(t.as_str()),
            };
            i += 1;
        }
        assert(self@.take(self@.len() as int) =~= self@);
        message
    }
}

/// A message is told piece by piece: what is told of two messages, one after the
/// other, is told of them as one.
pub proof fn law_messages(a: MessageView, b: MessageView, piece: PieceView)
    ensures
        message_text(a + b) == message_text(a) + message_text(b),
        message_text(seq![piece]) == piece_text(piece),
    decreases b.len(),
{
    assert(message_text(seq![piece]) =~= piece_text(piece)) by {
        reveal_with_fuel(message_text, 2);
        assert(seq![piece].drop_last() =~= Seq::empty());
    }
    if b.len() == 0 {
        assert(a + b =~= a);
        assert(message_text(a) + Seq::<char>::empty() =~= message_text(a));
    } else {
        assert((a + b).drop_last() =~= a + b.drop_last());
        assert((a + b).last() == b.last());
        law_messages(a, b.drop_last(), piece);
        let front = message_text(b.drop_last());
        let last = piece_text(b.last());
        assert((message_text(a) + front) + last =~= message_text(a) + (front + last));
    }
}

/// A failure that is told in a context starts with the message of the context; then
/// comes a colon, and then the failure itself.
pub proof fn law_contexts_come_first(message: MessageView, cause: ErrorView)
    ensures
        chain_text(failure(message)) == message_text(message),
        cause.len() > 0 ==> chain_text(in_context(message, cause)) == message_text(message) + ": "@
            + chain_text(cause),
        in_context(message, cause).len() > 0,
        in_context(message, cause)[0] == message,
    decreases cause.len(),
{
    let all = in_context(message, cause);
    if cause.len() == 1 {
        assert(all.drop_last() =~= seq![message]);
        assert(all.last() == cause[0]);
        reveal_with_fuel(chain_text, 2);
    } else if cause.len() > 1 {
        let front = cause.drop_last();
        law_contexts_come_first(message, front);
        assert(all.drop_last() =~= in_context(message, front));
        assert(all.last() == cause.last());
        let head = message_text(message) + ": "@;
        let tail = ": "@ + message_text(cause.last());
        assert(head + chain_text(front) + ": "@ + message_text(cause.last()) =~= head + (chain_text(
            front,
        ) + ": "@ + message_text(cause.last())));
    }
}

/// The value of a digit to the base of sixteen.
pub open spec fn hex_value(c: char) -> int {
    if '0' <= c <= '9' {
        c as int - '0' as int
    } else if 'A' <= c <= 'F' {
        c as int - 'A' as int + 10
    } else {
        -1
    }
}

proof fn lemma_hex_digit(n: u8)
    requires
        n < 16,
    ensures
        hex_digit(n).len() == 1,
        hex_value(hex_digit(n)[0]) == n,
{
    reveal_strlit("0123456789ABCDEF");
}

/// A byte is shown by a backslash, an `x` and two digits, from which it can be read
/// back.
pub proof fn law_bytes_by_number(b: u8)
    ensures
        byte_escape(b).len() == 4,
        byte_escape(b)[0] == '\\',
        byte_escape(b)[1] == 'x',
        16 * hex_value(byte_escape(b)[2]) + hex_value(byte_escape(b)[3]) == b,
{
    reveal_strlit("\\x");
    lemma_hex_digit(b / 16);
    lemma_hex_digit(b % 16);
}

/// A host word that is text is shown as a text is. Of any other, what can be read comes
/// first, then the byte that cannot be, by its number, and then the rest; and all of it
/// stands in quotes.
pub proof fn law_words_are_shown(word: Seq<u8>, front: Seq<u8>, b: u8, rest: Seq<u8>)
    requires
        word == front + seq![b] + rest,
        valid_utf8(front),
        forall|n: int| front.len() < n <= word.len() ==> !valid_utf8(#[trigger] word.take(n)),
    ensures
        word_text(word) == "\""@ + shown_bytes(word) + "\""@,
        shown_bytes(word) == between_quotes(quoted_word(decode_utf8(front))) + byte_escape(b)
            + shown_bytes(rest),
        valid_utf8(rest) ==> shown_bytes(rest) == between_quotes(quoted_word(decode_utf8(rest)))
            && word_text(rest) == quoted_word(decode_utf8(rest)),
{
    assert(word.take(word.len() as int) =~= word);
    assert(word.take(front.len() as int) =~= front);
    lemma_readable(word, front.len(), word.len());
    assert(word.skip(front.len() as int + 1) =~= rest);
    assert(rest.take(rest.len() as int) =~= rest);
}

proof fn lemma_readable(word: Seq<u8>, k: nat, n: nat)
    requires
        k <= n <= word.len(),
        valid_utf8(word.take(k as int)),
        forall|m: int| k < m <= n ==> !valid_utf8(#[trigger] word.take(m)),
    ensures
        readable_length(word, n) == k,
    decreases n,
{
    if n > k {
        assert(!valid_utf8(word.take(n as int)));
        lemma_readable(word, k, (n - 1) as nat);
    }
}

} // verus!
