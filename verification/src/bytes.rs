//! Byte strings: the form in which paths, arguments and environment entries
//! travel between the host and the library.
use vstd::prelude::*;
use vstd::slice::slice_to_vec;
use vstd::utf8::{decode_utf8, encode_utf8, encode_utf8_decode_utf8, valid_utf8};

use crate::views::views;

verus! {

broadcast use crate::views::group_views;

/// The bytes that `text` occupies in a host string.
pub open spec fn bytes_of(text: Seq<char>) -> Seq<u8> {
    encode_utf8(text)
}

/// The pieces between separators: `n` separators part a string into `n + 1` pieces.
pub open spec fn split(s: Seq<u8>, separators: Seq<u8>) -> Seq<Seq<u8>>
    decreases s.len(),
{
    if s.len() == 0 {
        seq![Seq::<u8>::empty()]
    } else {
        let front = split(s.drop_last(), separators);
        if separators.contains(s.last()) {
            front.push(Seq::<u8>::empty())
        } else {
            front.drop_last().push(front.last().push(s.last()))
        }
    }
}

/// Byte strings in dictionary order.
pub open spec fn bytes_less(a: Seq<u8>, b: Seq<u8>) -> bool
    decreases a.len(),
{
    if b.len() == 0 {
        false
    } else if a.len() == 0 {
        true
    } else if a[0] == b[0] {
        bytes_less(a.drop_first(), b.drop_first())
    } else {
        a[0] < b[0]
    }
}

pub proof fn lemma_split_nonempty(s: Seq<u8>, separators: Seq<u8>)
    ensures
        split(s, separators).len() > 0,
    decreases s.len(),
{
    if s.len() > 0 {
        lemma_split_nonempty(s.drop_last(), separators);
    }
}

/// Two texts with the same bytes are the same.
pub proof fn lemma_bytes_tell(a: Seq<char>, b: Seq<char>)
    requires
        bytes_of(a) == bytes_of(b),
    ensures
        a == b,
{
    encode_utf8_decode_utf8(a);
    encode_utf8_decode_utf8(b);
    assert(decode_utf8(bytes_of(a)) == decode_utf8(bytes_of(b)));
}

/// A separator and a piece without separators behind a string add that piece to
/// its pieces.
pub proof fn lemma_split_on(s: Seq<u8>, separator: u8, piece: Seq<u8>)
    requires
        !piece.contains(separator),
    ensures
        split(s.push(separator) + piece, seq![separator]) == split(s, seq![separator]).push(piece),
    decreases piece.len(),
{
    let whole = s.push(separator) + piece;
    assert(seq![separator][0] == separator);
    if piece.len() == 0 {
        assert(whole =~= s.push(separator));
        assert(whole.drop_last() =~= s);
        assert(piece =~= Seq::<u8>::empty());
    } else {
        let front = piece.drop_last();
        assert(!front.contains(separator)) by {
            if front.contains(separator) {
                assert(piece[front.index_of(separator)] == separator);
            }
        }
        lemma_split_on(s, separator, front);
        assert(whole.drop_last() =~= s.push(separator) + front);
        assert(piece[piece.len() - 1] == whole.last());
        assert(!seq![separator].contains(whole.last()));
        assert(front.push(whole.last()) =~= piece);
        let before = split(s, seq![separator]).push(front);
        assert(before.drop_last() =~= split(s, seq![separator]));
    }
}

/// A string without separators is one piece.
pub proof fn lemma_split_one(piece: Seq<u8>, separator: u8)
    requires
        !piece.contains(separator),
    ensures
        split(piece, seq![separator]) == seq![piece],
    decreases piece.len(),
{
    if piece.len() == 0 {
        assert(piece =~= Seq::<u8>::empty());
    } else {
        let front = piece.drop_last();
        assert(!front.contains(separator)) by {
            if front.contains(separator) {
                assert(piece[front.index_of(separator)] == separator);
            }
        }
        lemma_split_one(front, separator);
        assert(piece[piece.len() - 1] == piece.last());
        assert(!seq![separator].contains(piece.last()));
        assert(front.push(piece.last()) =~= piece);
        assert(seq![front].drop_last().push(piece) =~= seq![piece]);
    }
}

/// Dictionary order is total.
pub proof fn lemma_bytes_less_total(a: Seq<u8>, b: Seq<u8>)
    ensures
        a == b || bytes_less(a, b) || bytes_less(b, a),
    decreases a.len(),
{
    if a.len() > 0 && b.len() > 0 {
        if a[0] == b[0] {
            lemma_bytes_less_total(a.drop_first(), b.drop_first());
            assert(a =~= seq![a[0]] + a.drop_first());
            assert(b =~= seq![b[0]] + b.drop_first());
        }
    } else {
        assert(a.len() == 0 && b.len() == 0 ==> a =~= b);
    }
}

/// Dictionary order never holds both ways round.
pub proof fn lemma_bytes_less_asymmetric(a: Seq<u8>, b: Seq<u8>)
    ensures
        bytes_less(a, b) ==> !bytes_less(b, a),
    decreases a.len(),
{
    if a.len() > 0 && b.len() > 0 && a[0] == b[0] {
        lemma_bytes_less_asymmetric(a.drop_first(), b.drop_first());
    }
}

pub proof fn lemma_bytes_less_transitive(a: Seq<u8>, b: Seq<u8>, c: Seq<u8>)
    requires
        bytes_less(a, b),
        bytes_less(b, c),
    ensures
        bytes_less(a, c),
    decreases a.len(),
{
    if a.len() > 0 && a[0] == b[0] && b[0] == c[0] {
        lemma_bytes_less_transitive(a.drop_first(), b.drop_first(), c.drop_first());
    }
}

pub fn copy_bytes(bytes: &[u8]) -> (r: Vec<u8>)
    ensures
        r@ == bytes@,
{
    slice_to_vec(bytes)
}

/// The bytes of `text` as an owned byte string.
pub fn text_bytes(text: &str) -> (r: Vec<u8>)
    ensures
        r@ == bytes_of(text@),
{
    slice_to_vec(text.as_bytes())
}

/// `std::str::from_utf8`, asked only whether it accepts the bytes. Claimed: it
/// accepts exactly the valid UTF-8 strings.
#[verifier::external_body]
pub(crate) fn is_utf8(bytes: &[u8]) -> (r: bool)
    ensures
        r == valid_utf8(bytes@),
{
    std::str::from_utf8(bytes).is_ok()
}

pub fn bytes_equal(a: &[u8], b: &[u8]) -> (r: bool)
    ensures
        r == (a@ == b@),
{
    if a.len() != b.len() {
        return false;
    }
    let mut i: usize = 0;
    while i < a.len()
        invariant
            a@.len() == b@.len(),
            i <= a.len(),
            forall|j: int| 0 <= j < i ==> a@[j] == b@[j],
        decreases a.len() - i,
    {
        if a[i] != b[i] {
            return false;
        }
        i += 1;
    }
    assert(a@ =~= b@);
    true
}

pub fn bytes_contain(bytes: &[u8], byte: u8) -> (r: bool)
    ensures
        r == bytes@.contains(byte),
{
    let mut i: usize = 0;
    while i < bytes.len()
        invariant
            i <= bytes.len(),
            forall|j: int| 0 <= j < i ==> bytes@[j] != byte,
        decreases bytes.len() - i,
    {
        if bytes[i] == byte {
            return true;
        }
        i += 1;
    }
    false
}

pub fn bytes_start_with(bytes: &[u8], prefix: &[u8]) -> (r: bool)
    ensures
        r == prefix@.is_prefix_of(bytes@),
{
    if prefix.len() > bytes.len() {
        return false;
    }
    let mut i: usize = 0;
    while i < prefix.len()
        invariant
            prefix@.len() <= bytes@.len(),
            i <= prefix.len(),
            forall|j: int| 0 <= j < i ==> bytes@[j] == prefix@[j],
        decreases prefix.len() - i,
    {
        if bytes[i] != prefix[i] {
            assert(bytes@.subrange(0, prefix@.len() as int)[i as int] == bytes@[i as int]);
            return false;
        }
        i += 1;
    }
    assert(prefix@ =~= bytes@.subrange(0, prefix@.len() as int));
    true
}

/// Whether `a` comes before `b` in dictionary order.
pub fn bytes_before(a: &[u8], b: &[u8]) -> (r: bool)
    ensures
        r == bytes_less(a@, b@),
{
    let mut i: usize = 0;
    assert(a@.skip(0) =~= a@);
    assert(b@.skip(0) =~= b@);
    while i < a.len() && i < b.len()
        invariant
            i <= a.len(),
            i <= b.len(),
            bytes_less(a@, b@) == bytes_less(a@.skip(i as int), b@.skip(i as int)),
        decreases a.len() - i,
    {
        if a[i] != b[i] {
            return a[i] < b[i];
        }
        assert(a@.skip(i as int).drop_first() =~= a@.skip(i + 1));
        assert(b@.skip(i as int).drop_first() =~= b@.skip(i + 1));
        i += 1;
    }
    i < b.len()
}

/// Splits like a slice's own `split`, at every byte found in `separators`.
pub fn split_bytes(bytes: &[u8], separators: &[u8]) -> (r: Vec<Vec<u8>>)
    ensures
        views(r@) == split(bytes@, separators@),
{
    let mut done: Vec<Vec<u8>> = Vec::new();
    let mut open: Vec<u8> = Vec::new();
    let mut i: usize = 0;
    assert(views(done@).push(open@) =~= split(bytes@.take(0), separators@));
    while i < bytes.len()
        invariant
            i <= bytes.len(),
            views(done@).push(open@) == split(bytes@.take(i as int), separators@),
        decreases bytes.len() - i,
    {
        let ghost before = views(done@);
        let ghost part = open@;
        assert(bytes@.take(i + 1).drop_last() =~= bytes@.take(i as int));
        if bytes_contain(separators, bytes[i]) {
            done.push(open);
            open = Vec::new();
            assert(views(done@) =~= before.push(part));
        } else {
            open.push(bytes[i]);
            assert(before.push(part).drop_last() =~= before);
        }
        i += 1;
    }
    let ghost before = views(done@);
    done.push(open);
    assert(views(done@) =~= before.push(open@));
    assert(bytes@.take(bytes@.len() as int) =~= bytes@);
    done
}

/// The pieces of two strings with a separator between them are those of the one and
/// then those of the other.
pub proof fn lemma_split_apart(s: Seq<u8>, separators: Seq<u8>, separator: u8, t: Seq<u8>)
    requires
        separators.contains(separator),
    ensures
        split(s.push(separator) + t, separators) == split(s, separators) + split(t, separators),
    decreases t.len(),
{
    let whole = s.push(separator) + t;
    if t.len() == 0 {
        assert(whole =~= s.push(separator));
        assert(whole.drop_last() =~= s);
        assert(split(s, separators).push(Seq::<u8>::empty()) =~= split(s, separators)
            + seq![Seq::<u8>::empty()]);
    } else {
        let front = t.drop_last();
        lemma_split_apart(s, separators, separator, front);
        lemma_split_nonempty(front, separators);
        assert(whole.drop_last() =~= s.push(separator) + front);
        assert(whole.last() == t.last());
        let a = split(s, separators);
        let b = split(front, separators);
        if separators.contains(t.last()) {
            assert((a + b).push(Seq::<u8>::empty()) =~= a + b.push(Seq::<u8>::empty()));
        } else {
            let last = b.last().push(t.last());
            assert((a + b).last() == b.last());
            assert((a + b).drop_last().push(last) =~= a + b.drop_last().push(last));
        }
    }
}

/// A string in which no separator stands is one piece.
pub proof fn lemma_split_whole(piece: Seq<u8>, separators: Seq<u8>)
    requires
        forall|i: int| 0 <= i < piece.len() ==> !separators.contains(#[trigger] piece[i]),
    ensures
        split(piece, separators) == seq![piece],
    decreases piece.len(),
{
    if piece.len() == 0 {
        assert(piece =~= Seq::<u8>::empty());
    } else {
        let front = piece.drop_last();
        assert forall|i: int| 0 <= i < front.len() implies !separators.contains(
            #[trigger] front[i],
        ) by {
            assert(!separators.contains(piece[i]));
        }
        lemma_split_whole(front, separators);
        assert(!separators.contains(piece[piece.len() - 1]));
        assert(front.push(piece.last()) =~= piece);
        assert(seq![front].drop_last().push(piece) =~= seq![piece]);
    }
}

/// Where two byte strings first differ, the one with the smaller byte comes first; and
/// a string comes before every longer one that starts with it.
pub proof fn law_dictionary_order(
    common: Seq<u8>,
    a: u8,
    b: u8,
    s: Seq<u8>,
    t: Seq<u8>,
)
    ensures
        a != b ==> (bytes_less(common + seq![a] + s, common + seq![b] + t) <==> a < b),
        bytes_less(common, common + seq![a] + s),
        !bytes_less(common + seq![a] + s, common),
        !bytes_less(common, common),
    decreases common.len(),
{
    let x = common + seq![a] + s;
    let y = common + seq![b] + t;
    if common.len() > 0 {
        let rest = common.drop_first();
        law_dictionary_order(rest, a, b, s, t);
        assert(x.drop_first() =~= rest + seq![a] + s);
        assert(y.drop_first() =~= rest + seq![b] + t);
        assert(x[0] == common[0] && y[0] == common[0]);
    } else {
        assert(x[0] == a && y[0] == b);
    }
}

} // verus!
