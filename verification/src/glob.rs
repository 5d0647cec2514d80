//! Glob patterns, as far as the glob compiler takes them.
use vstd::prelude::*;
use vstd::string::*;
use vstd::utf8::{
    char_u32_cast, codepoint_width_1, encode_utf8_first_scalar, is_leading_byte_width_1,
    leading_byte_width_1,
};

use crate::bytes::bytes_of;
use crate::path::is_absolute;

verus! {

/// How deep the braces of a pattern may nest when it is handed to the glob
/// compiler, which descends into groups on its stack. What it makes of groups that
/// hold something and nest deeper is more than the regular expression engine takes.
pub const NESTING: usize = 1000;

/// How a character of a pattern is read.
#[derive(Clone, Copy, Debug, PartialEq, Eq)]
pub enum Reading {
    Plain,
    /// A backslash came just before.
    Escaped,
    /// The opening bracket of a class came just before.
    ClassOpened,
    /// The opening bracket and a negation came just before.
    ClassNegated,
    InClass,
}

/// How the character after `c` is read.
pub open spec fn next_reading(reading: Reading, c: char) -> Reading {
    match reading {
        Reading::Plain => if c == '\\' {
            Reading::Escaped
        } else if c == '[' {
            Reading::ClassOpened
        } else {
            Reading::Plain
        },
        Reading::Escaped => Reading::Plain,
        Reading::ClassOpened => if c == '!' || c == '^' {
            Reading::ClassNegated
        } else {
            Reading::InClass
        },
        Reading::ClassNegated => Reading::InClass,
        Reading::InClass => if c == ']' {
            Reading::Plain
        } else {
            Reading::InClass
        },
    }
}

fn read_on(reading: Reading, c: char) -> (r: Reading)
    ensures
        r == next_reading(reading, c),
{
    match reading {
        Reading::Plain => if c == '\\' {
            Reading::Escaped
        } else if c == '[' {
            Reading::ClassOpened
        } else {
            Reading::Plain
        },
        Reading::Escaped => Reading::Plain,
        Reading::ClassOpened => if c == '!' || c == '^' {
            Reading::ClassNegated
        } else {
            Reading::InClass
        },
        Reading::ClassNegated => Reading::InClass,
        Reading::InClass => if c == ']' {
            Reading::Plain
        } else {
            Reading::InClass
        },
    }
}

fn is_plain(reading: Reading) -> (r: bool)
    ensures
        r == (reading is Plain),
{
    match reading {
        Reading::Plain => true,
        _ => false,
    }
}

/// What a pattern's braces come to so far: for each group that is still open,
/// from the outermost in, how deep the groups closed in it nest; and how deep
/// any closed group nests.
pub struct Braces {
    pub open: Seq<nat>,
    pub deepest: nat,
    pub reading: Reading,
}

pub open spec fn larger(a: nat, b: nat) -> nat {
    if a < b {
        b
    } else {
        a
    }
}

/// Closes the innermost open group.
pub open spec fn closed_group(braces: Braces) -> Braces {
    let depth = braces.open.last() + 1;
    let outer = braces.open.drop_last();
    Braces {
        open: if outer.len() == 0 {
            outer
        } else {
            outer.drop_last().push(larger(outer.last(), depth))
        },
        deepest: larger(braces.deepest, depth),
        reading: Reading::Plain,
    }
}

/// One more character.
pub open spec fn with_char(braces: Braces, c: char) -> Braces {
    if braces.reading is Plain && c == '{' {
        Braces { open: braces.open.push(0), ..braces }
    } else if braces.reading is Plain && c == '}' && braces.open.len() > 0 {
        closed_group(braces)
    } else {
        Braces { reading: next_reading(braces.reading, c), ..braces }
    }
}

pub open spec fn braces_of(pattern: Seq<char>) -> Braces
    decreases pattern.len(),
{
    if pattern.len() == 0 {
        Braces { open: Seq::empty(), deepest: 0, reading: Reading::Plain }
    } else {
        with_char(braces_of(pattern.drop_last()), pattern.last())
    }
}

/// The braces of a pattern nest no deeper than the limit.
pub open spec fn is_shallow(pattern: Seq<char>) -> bool {
    braces_of(pattern).deepest <= NESTING
}

fn chars_of(text: &str) -> (r: Vec<char>)
    ensures
        r@ == text@,
{
    let mut all: Vec<char> = Vec::new();
    for c in it: text.chars()
        invariant
            it.seq() == text@,
            all@ == text@.take(it.index() as int),
    {
        all.push(c);
    }
    all
}

/// Whether the braces of a pattern nest no deeper than the limit.
pub fn nests_shallow(pattern: &str) -> (r: bool)
    ensures
        r == is_shallow(pattern@),
{
    let chars = chars_of(pattern);
    let mut open: Vec<usize> = Vec::new();
    let mut deepest: usize = 0;
    let mut reading = Reading::Plain;
    let mut i: usize = 0;
    assert(depths(open@) =~= Seq::empty());
    assert(pattern@.take(0) =~= Seq::empty());
    while i < chars.len()
        invariant
            chars@ == pattern@,
            i <= chars.len(),
            open@.len() <= i,
            deepest <= i,
            forall|k: int| 0 <= k < open@.len() ==> #[trigger] open@[k] + open@.len() <= i,
            braces_of(pattern@.take(i as int)) == (Braces {
                open: depths(open@),
                deepest: deepest as nat,
                reading,
            }),
        decreases chars.len() - i,
    {
        let c = chars[i];
        let ghost before = braces_of(pattern@.take(i as int));
        let ghost listed = open@;
        assert(pattern@.take(i + 1).drop_last() =~= pattern@.take(i as int));
        assert(pattern@.take(i + 1).last() == c);
        if is_plain(reading) && c == '{' {
            open.push(0);
            assert(depths(open@) =~= before.open.push(0));
        } else if is_plain(reading) && c == '}' {
            if let Some(inner) = open.pop() {
                assert(listed[listed.len() - 1] == inner);
                let depth: usize = inner + 1;
                if deepest < depth {
                    deepest = depth;
                }
                let n = open.len();
                if n > 0 {
                    assert(open@[n - 1] == listed[n - 1]);
                    if open[n - 1] < depth {
                        open.set(n - 1, depth);
                    }
                }
                assert(depths(open@) =~= closed_group(before).open);
            }
        } else {
            reading = read_on(reading, c);
        }
        i += 1;
    }
    assert(pattern@.take(chars@.len() as int) =~= pattern@);
    deepest <= NESTING
}

spec fn depths(open: Seq<usize>) -> Seq<nat> {
    open.map_values(|depth: usize| depth as nat)
}

/// A pattern without its braces, as far as it has been read, and how many groups
/// are open.
pub struct Flat {
    pub text: Seq<char>,
    pub open: nat,
    pub reading: Reading,
}

pub open spec fn flat_of(pattern: Seq<char>) -> Flat
    decreases pattern.len(),
{
    if pattern.len() == 0 {
        Flat { text: Seq::empty(), open: 0, reading: Reading::Plain }
    } else {
        let so_far = flat_of(pattern.drop_last());
        let c = pattern.last();
        if so_far.reading is Plain && c == '{' {
            Flat { open: so_far.open + 1, ..so_far }
        } else if so_far.reading is Plain && c == '}' && so_far.open > 0 {
            Flat { open: (so_far.open - 1) as nat, ..so_far }
        } else {
            Flat {
                text: so_far.text.push(c),
                reading: next_reading(so_far.reading, c),
                ..so_far
            }
        }
    }
}

/// A pattern without groups that has the fault of `pattern`, if that has one: the
/// braces of groups are left out, and one that opens a group stands at the end
/// where a group is left open.
pub open spec fn flat(pattern: Seq<char>) -> Seq<char> {
    let all = flat_of(pattern);
    if all.reading is Plain && all.open > 0 {
        all.text.push('{')
    } else {
        all.text
    }
}

proof fn lemma_flat_shallow(pattern: Seq<char>)
    ensures
        braces_of(flat_of(pattern).text) == (Braces {
            open: Seq::empty(),
            deepest: 0,
            reading: flat_of(pattern).reading,
        }),
        is_shallow(flat(pattern)),
    decreases pattern.len(),
{
    if pattern.len() > 0 {
        lemma_flat_shallow(pattern.drop_last());
        let text = flat_of(pattern.drop_last()).text;
        assert(text.push(pattern.last()).drop_last() =~= text);
    }
    let text = flat_of(pattern).text;
    assert(text.push('{').drop_last() =~= text);
}

/// The characters at the given places.
spec fn picked(all: Seq<char>, places: Seq<usize>) -> Seq<char> {
    places.map_values(|k: usize| all[k as int])
}

/// The text of the characters at the given places.
fn pick(text: &str, places: &Vec<usize>) -> (r: String)
    requires
        forall|k: int| 0 <= k < places@.len() ==> #[trigger] places@[k] < text@.len(),
    ensures
        r@ == picked(text@, places@),
{
    let length = text.unicode_len();
    let mut out = String::new();
    let mut j: usize = 0;
    assert(out@ =~= picked(text@, places@.take(0)));
    while j < places.len()
        invariant
            j <= places.len(),
            length == text@.len(),
            forall|k: int| 0 <= k < places@.len() ==> #[trigger] places@[k] < text@.len(),
            out@ == picked(text@, places@.take(j as int)),
        decreases places.len() - j,
    {
        let start = places[j];
        let mut end: usize = j + 1;
        while end < places.len() && places[end] == start + (end - j)
            invariant
                j < end <= places.len(),
                start == places@[j as int],
                length == text@.len(),
                start + (end - j) <= length,
                forall|k: int| 0 <= k < places@.len() ==> #[trigger] places@[k] < text@.len(),
                forall|k: int| j <= k < end ==> #[trigger] places@[k] == start + (k - j),
            decreases places.len() - end,
        {
            end += 1;
        }
        let ghost before = out@;
        out.append(text.substring_char(start, start + (end - j)));
        assert(out@ =~= picked(text@, places@.take(end as int)));
        j = end;
    }
    assert(places@.take(j as int) =~= places@);
    out
}

fn flatten(pattern: &str) -> (r: String)
    ensures
        r@ == flat(pattern@),
{
    let chars = chars_of(pattern);
    let mut kept: Vec<usize> = Vec::new();
    let mut open: usize = 0;
    let mut reading = Reading::Plain;
    let mut i: usize = 0;
    assert(pattern@.take(0) =~= Seq::empty());
    assert(picked(pattern@, kept@) =~= Seq::empty());
    while i < chars.len()
        invariant
            chars@ == pattern@,
            i <= chars.len(),
            open <= i,
            forall|k: int| 0 <= k < kept@.len() ==> #[trigger] kept@[k] < pattern@.len(),
            flat_of(pattern@.take(i as int)) == (Flat {
                text: picked(pattern@, kept@),
                open: open as nat,
                reading,
            }),
        decreases chars.len() - i,
    {
        let c = chars[i];
        let ghost before = picked(pattern@, kept@);
        assert(pattern@.take(i + 1).drop_last() =~= pattern@.take(i as int));
        assert(pattern@.take(i + 1).last() == c);
        if is_plain(reading) && c == '{' {
            open += 1;
        } else if is_plain(reading) && c == '}' && open > 0 {
            open -= 1;
        } else {
            kept.push(i);
            reading = read_on(reading, c);
            assert(picked(pattern@, kept@) =~= before.push(c));
        }
        i += 1;
    }
    assert(pattern@.take(chars@.len() as int) =~= pattern@);
    let mut out = pick(pattern, &kept);
    if is_plain(reading) && open > 0 {
        out.append("{");
        proof {
            reveal_strlit("{");
        }
        assert(out@ =~= flat(pattern@));
    }
    out
}

/// A group that is open: where it opens, and whether it holds nothing so far but
/// commas and groups that hold nothing.
pub struct Group {
    pub start: nat,
    pub bare: bool,
}

/// A pattern as far as it has been read, with nothing in its bare groups.
pub struct Lean {
    pub text: Seq<char>,
    pub open: Seq<Group>,
    pub reading: Reading,
}

/// The innermost open group holds something.
pub open spec fn filled(open: Seq<Group>) -> Seq<Group> {
    if open.len() == 0 {
        open
    } else {
        open.drop_last().push(Group { bare: false, ..open.last() })
    }
}

pub open spec fn lean_of(pattern: Seq<char>) -> Lean
    decreases pattern.len(),
{
    if pattern.len() == 0 {
        Lean { text: Seq::empty(), open: Seq::empty(), reading: Reading::Plain }
    } else {
        let so_far = lean_of(pattern.drop_last());
        let text = so_far.text;
        let open = so_far.open;
        let c = pattern.last();
        let reading = next_reading(so_far.reading, c);
        if so_far.reading is Plain && c == '{' {
            Lean {
                text: text.push(c),
                open: open.push(Group { start: text.len(), bare: true }),
                reading,
            }
        } else if so_far.reading is Plain && c == '}' && open.len() > 0 {
            if open.last().bare {
                Lean {
                    text: text.take(open.last().start as int + 1).push(c),
                    open: open.drop_last(),
                    reading,
                }
            } else {
                Lean { text: text.push(c), open: filled(open.drop_last()), reading }
            }
        } else if so_far.reading is Plain && c == ',' {
            Lean { text: text.push(c), open, reading }
        } else {
            Lean { text: text.push(c), open: filled(open), reading }
        }
    }
}

/// A pattern with an empty group in place of each group that holds nothing but
/// commas and such groups. The glob compiler makes nothing of such a group, in
/// whichever way it is spelled.
pub open spec fn lean(pattern: Seq<char>) -> Seq<char> {
    lean_of(pattern).text
}

proof fn lemma_lean_groups(pattern: Seq<char>)
    ensures
        ({
            let all = lean_of(pattern);
            &&& forall|i: int|
                0 <= i < all.open.len() ==> (#[trigger] all.open[i]).start < all.text.len()
            &&& forall|i: int, j: int|
                0 <= i < j < all.open.len() ==> (#[trigger] all.open[i]).start < (
                #[trigger] all.open[j]).start
        }),
        pattern.len() > 0 ==> lean(pattern).len() > 0 && lean(pattern)[0] == pattern[0],
    decreases pattern.len(),
{
    if pattern.len() > 0 {
        lemma_lean_groups(pattern.drop_last());
    }
}

fn fill_innermost(bare: &mut Vec<bool>)
    ensures
        final(bare)@ == (if old(bare)@.len() == 0 {
            old(bare)@
        } else {
            old(bare)@.drop_last().push(false)
        }),
{
    let n = bare.len();
    if n > 0 {
        bare.set(n - 1, false);
        assert(bare@ =~= old(bare)@.drop_last().push(false));
    }
}

spec fn groups(starts: Seq<usize>, bare: Seq<bool>) -> Seq<Group> {
    Seq::new(starts.len(), |k: int| Group { start: starts[k] as nat, bare: bare[k] })
}

fn make_lean(pattern: &str) -> (r: String)
    ensures
        r@ == lean(pattern@),
{
    let chars = chars_of(pattern);
    let mut kept: Vec<usize> = Vec::new();
    let mut starts: Vec<usize> = Vec::new();
    let mut bare: Vec<bool> = Vec::new();
    let mut reading = Reading::Plain;
    let mut i: usize = 0;
    assert(pattern@.take(0) =~= Seq::empty());
    assert(picked(pattern@, kept@) =~= Seq::empty());
    assert(groups(starts@, bare@) =~= Seq::empty());
    while i < chars.len()
        invariant
            chars@ == pattern@,
            i <= chars.len(),
            kept@.len() <= i,
            starts@.len() == bare@.len(),
            forall|k: int| 0 <= k < kept@.len() ==> #[trigger] kept@[k] < pattern@.len(),
            lean_of(pattern@.take(i as int)) == (Lean {
                text: picked(pattern@, kept@),
                open: groups(starts@, bare@),
                reading,
            }),
        decreases chars.len() - i,
    {
        let c = chars[i];
        let ghost before = lean_of(pattern@.take(i as int));
        proof {
            lemma_lean_groups(pattern@.take(i as int));
        }
        assert(pattern@.take(i + 1).drop_last() =~= pattern@.take(i as int));
        assert(pattern@.take(i + 1).last() == c);
        if is_plain(reading) && c == '{' {
            starts.push(kept.len());
            bare.push(true);
            kept.push(i);
            assert(groups(starts@, bare@) =~= before.open.push(
                Group { start: before.text.len(), bare: true },
            ));
            assert(picked(pattern@, kept@) =~= before.text.push(c));
        } else if is_plain(reading) && c == '}' && starts.len() > 0 {
            let n = starts.len() - 1;
            let start = starts[n];
            let was_bare = bare[n];
            assert(before.open[n as int] == Group { start: start as nat, bare: was_bare });
            starts.truncate(n);
            bare.truncate(n);
            assert(groups(starts@, bare@) =~= before.open.drop_last());
            if was_bare {
                kept.truncate(start + 1);
                kept.push(i);
                assert(picked(pattern@, kept@) =~= before.text.take(start + 1).push(c));
            } else {
                fill_innermost(&mut bare);
                kept.push(i);
                assert(groups(starts@, bare@) =~= filled(before.open.drop_last()));
                assert(picked(pattern@, kept@) =~= before.text.push(c));
            }
        } else {
            if !is_plain(reading) || c != ',' {
                fill_innermost(&mut bare);
                assert(groups(starts@, bare@) =~= filled(before.open));
            }
            kept.push(i);
            assert(picked(pattern@, kept@) =~= before.text.push(c));
        }
        reading = read_on(reading, c);
        i += 1;
    }
    assert(pattern@.take(chars@.len() as int) =~= pattern@);
    pick(pattern, &kept)
}

/// What is wrong with a pattern that is no glob, in the compiler's words; `None`
/// if it is one.
pub uninterp spec fn glob_fault(pattern: Seq<char>) -> Option<Seq<char>>;

/// `globset::Glob::new`, asked only whether it takes the pattern, and else for the
/// kind of the error. Claimed: the answer, and what the kind says, depend on the
/// pattern alone. It descends into groups as deep as they nest.
#[verifier::external_body]
fn check_glob(pattern: &str) -> (r: Result<(), String>)
    requires
        is_shallow(pattern@),
    ensures
        match r {
            Ok(_) => glob_fault(pattern@) is None,
            Err(fault) => glob_fault(pattern@) == Some(fault@),
        },
{
    globset::Glob::new(pattern).map(|_| ()).map_err(
        |error: globset::Error| error.kind().to_string(),
    )
}

/// Whether a pattern is a glob of which a set can be built.
pub uninterp spec fn set_builds(pattern: Seq<char>) -> bool;

/// `globset::GlobSet::new` on one glob, asked only whether it succeeds. Claimed:
/// that depends on the pattern alone.
#[verifier::external_body]
fn build_set(pattern: &str) -> (r: bool)
    requires
        is_shallow(pattern@),
    ensures
        r == set_builds(pattern@),
{
    match globset::Glob::new(pattern) {
        Ok(glob) => globset::GlobSet::new([glob]).is_ok(),
        Err(_) => false,
    }
}

/// Whether a glob matches a path.
pub uninterp spec fn glob_matches(pattern: Seq<char>, path: Seq<u8>) -> bool;

/// A pattern begins with a slash.
pub open spec fn is_rooted(pattern: Seq<char>) -> bool {
    pattern.len() > 0 && pattern[0] == '/'
}

/// What is built into a set to see whether a rooted glob can be compiled by itself.
/// An empty group in front adds nothing to the regular expression, and with it
/// there a set compiles that expression as it stands.
pub open spec fn probe(pattern: Seq<char>) -> Seq<char> {
    "{}"@ + pattern
}

/// `globset::Glob::compile_matcher` and `is_match_candidate`. Claimed: the answer
/// depends on the pattern and the bytes of the path alone. `compile_matcher`
/// panics where the regular expression of the glob nests deeper or grows larger
/// than its engine allows; that of a rooted glob is the one of its `probe`, and
/// then no set is built of that.
#[verifier::external_body]
fn match_glob(pattern: &str, path: &[u8]) -> (r: bool)
    requires
        is_rooted(pattern@),
        is_shallow(pattern@),
        glob_fault(pattern@) is None,
        set_builds(probe(pattern@)),
    ensures
        r == glob_matches(pattern@, path@),
{
    match globset::Glob::new(pattern) {
        Ok(glob) => {
            glob.compile_matcher().is_match_candidate(&globset::Candidate::from_bytes(path))
        },
        Err(_) => false,
    }
}

/// What the glob compiler makes of a pattern and a path.
#[derive(Clone, Debug, PartialEq, Eq)]
pub enum VerdictOf<T> {
    /// The pattern does not begin at the root.
    Relative,
    /// Whether the pattern matches the path.
    Answer(bool),
    /// The pattern is no glob, in the compiler's words.
    NoGlob(T),
    /// The pattern is a glob that cannot be compiled.
    TooLarge,
}

pub type Verdict = VerdictOf<String>;

impl View for VerdictOf<String> {
    type V = VerdictOf<Seq<char>>;

    open spec fn view(&self) -> VerdictOf<Seq<char>> {
        match *self {
            VerdictOf::Relative => VerdictOf::Relative,
            VerdictOf::Answer(matches) => VerdictOf::Answer(matches),
            VerdictOf::NoGlob(why) => VerdictOf::NoGlob(why@),
            VerdictOf::TooLarge => VerdictOf::TooLarge,
        }
    }
}

/// How the compiler reports the fault of a pattern.
pub open spec fn glob_error(pattern: Seq<char>, fault: Seq<char>) -> Seq<char> {
    "error parsing glob '"@ + pattern + "': "@ + fault
}

/// The verdict on a pattern that is handed to the compiler as `glob`.
pub open spec fn compiled(pattern: Seq<char>, glob: Seq<char>, path: Seq<u8>) -> VerdictOf<
    Seq<char>,
> {
    match glob_fault(glob) {
        Some(fault) => VerdictOf::NoGlob(glob_error(pattern, fault)),
        None => if set_builds(probe(glob)) {
            VerdictOf::Answer(glob_matches(glob, path))
        } else {
            VerdictOf::TooLarge
        },
    }
}

/// The verdict on a pattern. One that nests too deep to be handed to the compiler
/// has the fault of the flat one, and else the meaning of the lean one.
pub open spec fn verdict(pattern: Seq<char>, path: Seq<u8>) -> VerdictOf<Seq<char>> {
    if !is_rooted(pattern) {
        VerdictOf::Relative
    } else if is_shallow(pattern) {
        compiled(pattern, pattern, path)
    } else {
        match glob_fault(flat(pattern)) {
            Some(fault) => VerdictOf::NoGlob(glob_error(pattern, fault)),
            None => if is_shallow(lean(pattern)) {
                compiled(pattern, lean(pattern), path)
            } else {
                VerdictOf::TooLarge
            },
        }
    }
}

/// The compiler is asked about a pattern exactly where it is an absolute path.
pub proof fn law_relative_patterns(pattern: Seq<char>, path: Seq<u8>)
    ensures
        verdict(pattern, path) is Relative <==> !is_absolute(bytes_of(pattern)),
{
    if pattern.len() > 0 {
        let bytes = bytes_of(pattern);
        let first = pattern[0] as u32;
        encode_utf8_first_scalar(pattern);
        char_u32_cast(pattern[0], first);
        if pattern[0] == '/' {
            assert(first == 0x2f);
            assert(leading_byte_width_1(0x2f) == 0x2f) by (bit_vector);
            assert(bytes[0] == 0x2f);
        }
        if bytes[0] == 0x2f {
            assert(is_leading_byte_width_1(0x2f)) by (bit_vector);
            assert(codepoint_width_1(0x2f) == 0x2f) by (bit_vector);
            assert(first == 0x2f);
        }
    }
}

proof fn lemma_probe_braces(pattern: Seq<char>)
    ensures
        braces_of(probe(pattern)) == (Braces {
            deepest: larger(1, braces_of(pattern).deepest),
            ..braces_of(pattern)
        }),
    decreases pattern.len(),
{
    reveal_strlit("{}");
    if pattern.len() == 0 {
        assert(probe(pattern) =~= seq!['{', '}']);
        assert(seq!['{', '}'].drop_last() =~= seq!['{']);
        assert(seq!['{'].drop_last() =~= Seq::<char>::empty());
        reveal_with_fuel(braces_of, 3);
        assert(braces_of(probe(pattern)).open =~= Seq::<nat>::empty());
    } else {
        lemma_probe_braces(pattern.drop_last());
        assert(probe(pattern).drop_last() =~= probe(pattern.drop_last()));
    }
}

fn report_fault(pattern: &str, fault: &str) -> (r: Verdict)
    ensures
        r@ == VerdictOf::NoGlob(glob_error(pattern@, fault@)),
{
    let mut words = "error parsing glob '".to_owned();
    words.append(pattern);
    words.append("': ");
    words.append(fault);
    VerdictOf::NoGlob(words)
}

fn compile(pattern: &str, glob: &str, path: &[u8]) -> (r: Verdict)
    requires
        is_rooted(glob@),
        is_shallow(glob@),
    ensures
        r@ == compiled(pattern@, glob@, path@),
{
    match check_glob(glob) {
        Err(fault) => report_fault(pattern, fault.as_str()),
        Ok(_) => {
            let mut longer = "{}".to_owned();
            longer.append(glob);
            proof {
                lemma_probe_braces(glob@);
            }
            if build_set(longer.as_str()) {
                VerdictOf::Answer(match_glob(glob, path))
            } else {
                VerdictOf::TooLarge
            }
        },
    }
}

/// Holds a path against a pattern.
pub fn judge(pattern: &str, path: &[u8]) -> (r: Verdict)
    ensures
        r@ == verdict(pattern@, path@),
{
    if pattern.unicode_len() == 0 || pattern.get_char(0) != '/' {
        return VerdictOf::Relative;
    }
    if nests_shallow(pattern) {
        return compile(pattern, pattern, path);
    }
    proof {
        lemma_flat_shallow(pattern@);
        lemma_lean_groups(pattern@);
    }
    match check_glob(flatten(pattern).as_str()) {
        Err(fault) => report_fault(pattern, fault.as_str()),
        Ok(_) => {
            let glob = make_lean(pattern);
            if nests_shallow(glob.as_str()) {
                compile(pattern, glob.as_str(), path)
            } else {
                VerdictOf::TooLarge
            }
        },
    }
}

/// How many opening braces a pattern has.
pub open spec fn brace_count(pattern: Seq<char>) -> nat
    decreases pattern.len(),
{
    if pattern.len() == 0 {
        0
    } else {
        brace_count(pattern.drop_last()) + if pattern.last() == '{' {
            1nat
        } else {
            0nat
        }
    }
}

proof fn lemma_depth_is_counted(pattern: Seq<char>)
    ensures
        braces_of(pattern).deepest <= brace_count(pattern),
        braces_of(pattern).open.len() <= brace_count(pattern),
        forall|k: int|
            0 <= k < braces_of(pattern).open.len() ==> #[trigger] braces_of(pattern).open[k]
                + braces_of(pattern).open.len() <= brace_count(pattern),
    decreases pattern.len(),
{
    if pattern.len() > 0 {
        let before = braces_of(pattern.drop_last());
        lemma_depth_is_counted(pattern.drop_last());
        let c = pattern.last();
        if before.reading is Plain && c == '{' {
        } else if before.reading is Plain && c == '}' && before.open.len() > 0 {
            assert(before.open[before.open.len() - 1] + before.open.len() <= brace_count(
                pattern.drop_last(),
            ));
        }
    }
}

/// A pattern that is absolute and has no more braces than groups may nest is judged as
/// it stands: it is no glob in the compiler's words, cannot be compiled, or matches the
/// path or does not.
pub proof fn law_ordinary_patterns(pattern: Seq<char>, path: Seq<u8>)
    requires
        is_absolute(bytes_of(pattern)),
        brace_count(pattern) <= 1000,
    ensures
        verdict(pattern, path) == match glob_fault(pattern) {
            Some(fault) => VerdictOf::NoGlob("error parsing glob '"@ + pattern + "': "@ + fault),
            None => if set_builds("{}"@ + pattern) {
                VerdictOf::Answer(glob_matches(pattern, path))
            } else {
                VerdictOf::TooLarge
            },
        },
{
    law_relative_patterns(pattern, path);
    lemma_depth_is_counted(pattern);
}

/// So many opening braces.
pub open spec fn opens(n: nat) -> Seq<char> {
    Seq::new(n, |i: int| '{')
}

/// So many closing braces.
pub open spec fn closes(n: nat) -> Seq<char> {
    Seq::new(n, |i: int| '}')
}

proof fn lemma_opens(n: nat)
    ensures
        braces_of(opens(n)) == (Braces {
            open: Seq::new(n, |i: int| 0nat),
            deepest: 0,
            reading: Reading::Plain,
        }),
        lean_of(opens(n)) == (Lean {
            text: opens(n),
            open: Seq::new(n, |i: int| Group { start: i as nat, bare: true }),
            reading: Reading::Plain,
        }),
        flat_of(opens(n)) == (Flat { text: Seq::empty(), open: n, reading: Reading::Plain }),
    decreases n,
{
    if n > 0 {
        let m = (n - 1) as nat;
        lemma_opens(m);
        assert(opens(n).drop_last() =~= opens(m));
        assert(opens(m).push('{') =~= opens(n));
        assert(Seq::new(m, |i: int| 0nat).push(0) =~= Seq::new(n, |i: int| 0nat));
        assert(Seq::new(m, |i: int| Group { start: i as nat, bare: true }).push(
            Group { start: m, bare: true },
        ) =~= Seq::new(n, |i: int| Group { start: i as nat, bare: true }));
    } else {
        assert(opens(n) =~= Seq::empty());
        assert(Seq::new(n, |i: int| 0nat) =~= Seq::empty());
        assert(Seq::new(n, |i: int| Group { start: i as nat, bare: true }) =~= Seq::empty());
    }
}

proof fn lemma_closes(n: nat, k: nat)
    requires
        k <= n,
    ensures
        ({
            let all = opens(n) + closes(k);
            let braces = braces_of(all);
            let thin = lean_of(all);
            let bald = flat_of(all);
            &&& braces.open.len() == n - k
            &&& braces.deepest == k
            &&& braces.reading is Plain
            &&& forall|j: int| 0 <= j < n - k - 1 ==> #[trigger] braces.open[j] == 0
            &&& k < n ==> braces.open[n - k - 1] == k
            &&& thin.open == Seq::new((n - k) as nat, |i: int| Group { start: i as nat, bare: true })
            &&& thin.reading is Plain
            &&& thin.text == if k == 0 {
                opens(n)
            } else {
                opens((n - k + 1) as nat).push('}')
            }
            &&& bald.text.len() == 0
            &&& bald.open == n - k
            &&& bald.reading is Plain
        }),
    decreases k,
{
    let all = opens(n) + closes(k);
    lemma_opens(n);
    if k == 0 {
        assert(all =~= opens(n));
    } else {
        let m = (k - 1) as nat;
        let front = opens(n) + closes(m);
        lemma_closes(n, m);
        assert(all.drop_last() =~= front);
        assert(all.last() == '}');
        let before = braces_of(front);
        let outer = before.open.drop_last();
        assert(before.open.last() == m);
        let thin = lean_of(front);
        assert(thin.open.last() == Group { start: (n - k) as nat, bare: true });
        assert(thin.open.drop_last() =~= Seq::new(
            (n - k) as nat,
            |i: int| Group { start: i as nat, bare: true },
        ));
        assert(thin.text.take(n - k + 1) =~= opens((n - k + 1) as nat));
    }
}

/// Groups in groups nest as deep as there are, and are handed to the compiler as they
/// stand up to the limit. A group that holds nothing but such groups is the same as an
/// empty one, and none of them is left where groups are taken out.
pub proof fn law_nesting(n: nat)
    requires
        n > 0,
    ensures
        braces_of(opens(n) + closes(n)).deepest == n,
        is_shallow(opens(n) + closes(n)) <==> n <= 1000,
        lean(opens(n) + closes(n)) == seq!['{', '}'],
        flat(opens(n) + closes(n)) == Seq::<char>::empty(),
{
    lemma_closes(n, n);
    assert(opens(1).push('}') =~= seq!['{', '}']);
    assert(flat_of(opens(n) + closes(n)).text =~= Seq::empty());
}

/// A pattern in which no group closes is lean as it stands, and one in which none opens
/// is flat as it stands as well.
pub proof fn law_patterns_without_groups(pattern: Seq<char>)
    ensures
        !pattern.contains('}') ==> lean(pattern) == pattern,
        !pattern.contains('{') ==> lean(pattern) == pattern && flat(pattern) == pattern,
{
    if !pattern.contains('}') {
        lemma_nothing_closes(pattern);
    }
    if !pattern.contains('{') {
        lemma_nothing_opens(pattern);
    }
}

proof fn lemma_nothing_closes(pattern: Seq<char>)
    requires
        !pattern.contains('}'),
    ensures
        lean_of(pattern).text == pattern,
    decreases pattern.len(),
{
    if pattern.len() > 0 {
        let front = pattern.drop_last();
        assert(!front.contains('}')) by {
            if front.contains('}') {
                assert(pattern[front.index_of('}')] == '}');
            }
        }
        lemma_nothing_closes(front);
        assert(pattern[pattern.len() - 1] == pattern.last());
        assert(front.push(pattern.last()) =~= pattern);
    } else {
        assert(pattern =~= Seq::empty());
    }
}

proof fn lemma_nothing_opens(pattern: Seq<char>)
    requires
        !pattern.contains('{'),
    ensures
        lean_of(pattern).text == pattern,
        lean_of(pattern).open.len() == 0,
        flat_of(pattern).text == pattern,
        flat_of(pattern).open == 0,
    decreases pattern.len(),
{
    if pattern.len() > 0 {
        let front = pattern.drop_last();
        assert(!front.contains('{')) by {
            if front.contains('{') {
                assert(pattern[front.index_of('{')] == '{');
            }
        }
        lemma_nothing_opens(front);
        assert(pattern[pattern.len() - 1] == pattern.last());
        assert(front.push(pattern.last()) =~= pattern);
    } else {
        assert(pattern =~= Seq::empty());
    }
}

} // verus!
