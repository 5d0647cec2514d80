//! Host paths: raw bytes read by the rules of Unix path names.
use vstd::prelude::*;
use vstd::slice::slice_subrange;

use crate::bytes::{
    bytes_before, bytes_equal, bytes_less, bytes_of, copy_bytes, lemma_bytes_less_asymmetric,
    lemma_bytes_less_total, lemma_bytes_less_transitive, lemma_split_nonempty, lemma_split_on,
    lemma_split_one, split, split_bytes, text_bytes,
};
use crate::views::views;

verus! {

broadcast use crate::views::group_views;

pub const SLASH: u8 = 0x2f;

pub const DOT: u8 = 0x2e;

/// One step of a path, over names of type `T`.
#[derive(Clone, Debug, PartialEq, Eq)]
pub enum ComponentOf<T> {
    RootDir,
    CurDir,
    ParentDir,
    Normal(T),
}

pub type Component = ComponentOf<Vec<u8>>;

impl View for ComponentOf<Vec<u8>> {
    type V = ComponentOf<Seq<u8>>;

    open spec fn view(&self) -> ComponentOf<Seq<u8>> {
        match *self {
            ComponentOf::RootDir => ComponentOf::RootDir,
            ComponentOf::CurDir => ComponentOf::CurDir,
            ComponentOf::ParentDir => ComponentOf::ParentDir,
            ComponentOf::Normal(name) => ComponentOf::Normal(name@),
        }
    }
}

/// The component that a piece between two slashes stands for. Empty pieces and
/// single dots stand for none.
pub open spec fn step(piece: Seq<u8>) -> Seq<ComponentOf<Seq<u8>>> {
    if piece.len() == 0 || piece == seq![DOT] {
        Seq::empty()
    } else if piece == seq![DOT, DOT] {
        seq![ComponentOf::ParentDir]
    } else {
        seq![ComponentOf::Normal(piece)]
    }
}

pub open spec fn steps(pieces: Seq<Seq<u8>>) -> Seq<ComponentOf<Seq<u8>>>
    decreases pieces.len(),
{
    if pieces.len() == 0 {
        Seq::empty()
    } else {
        steps(pieces.drop_last()) + step(pieces.last())
    }
}

pub open spec fn is_absolute(s: Seq<u8>) -> bool {
    s.len() > 0 && s[0] == SLASH
}

/// What stands before the named steps: the root of an absolute path, or a
/// leading dot of a relative one.
pub open spec fn lead(s: Seq<u8>) -> Seq<ComponentOf<Seq<u8>>> {
    if is_absolute(s) {
        seq![ComponentOf::RootDir]
    } else if split(s, seq![SLASH])[0] == seq![DOT] {
        seq![ComponentOf::CurDir]
    } else {
        Seq::empty()
    }
}

/// The steps that a path takes. Two paths are the same path when these agree.
#[verifier::opaque]
pub open spec fn components(s: Seq<u8>) -> Seq<ComponentOf<Seq<u8>>> {
    lead(s) + steps(split(s, seq![SLASH]))
}

/// `path` lies at or below `root`.
pub open spec fn is_under(path: Seq<u8>, root: Seq<u8>) -> bool {
    components(root).is_prefix_of(components(path))
}

/// `base` followed by `rest`; an absolute `rest` replaces `base`.
pub open spec fn join(base: Seq<u8>, rest: Seq<u8>) -> Seq<u8> {
    if is_absolute(rest) {
        rest
    } else if base.len() > 0 && base.last() != SLASH {
        base.push(SLASH) + rest
    } else {
        base + rest
    }
}

/// The last component of a path, where it is a name.
pub open spec fn file_name(s: Seq<u8>) -> Option<Seq<u8>> {
    let parts = components(s);
    if parts.len() > 0 {
        match parts.last() {
            ComponentOf::Normal(name) => Some(name),
            _ => None,
        }
    } else {
        None
    }
}

/// The length of the shortest prefix of `s`, of at least `k` bytes, whose
/// components are `parts`; the whole of `s` if there is none.
pub open spec fn shortest(s: Seq<u8>, parts: Seq<ComponentOf<Seq<u8>>>, k: nat) -> nat
    decreases s.len() - k,
{
    if k >= s.len() || components(s.take(k as int)) == parts {
        k
    } else {
        shortest(s, parts, k + 1)
    }
}

/// A path without its last component: the shortest prefix that holds all the
/// others. Neither the root nor the empty path has one.
pub open spec fn parent(s: Seq<u8>) -> Option<Seq<u8>> {
    let parts = components(s);
    if parts.len() == 0 || parts.last() == ComponentOf::<Seq<u8>>::RootDir {
        None
    } else {
        Some(s.take(shortest(s, parts.drop_last(), 0) as int))
    }
}

/// A path and every path above it, from the bottom up.
pub open spec fn ancestors(s: Seq<u8>) -> Seq<Seq<u8>>
    decreases s.len(),
{
    match parent(s) {
        None => seq![s],
        Some(above) => {
            proof {
                lemma_parent_shorter(s);
            }
            seq![s] + ancestors(above)
        },
    }
}

/// The place of a component among components of other kinds.
pub open spec fn rank(part: ComponentOf<Seq<u8>>) -> nat {
    match part {
        ComponentOf::RootDir => 0,
        ComponentOf::CurDir => 1,
        ComponentOf::ParentDir => 2,
        ComponentOf::Normal(_) => 3,
    }
}

pub open spec fn component_less(a: ComponentOf<Seq<u8>>, b: ComponentOf<Seq<u8>>) -> bool {
    match (a, b) {
        (ComponentOf::Normal(x), ComponentOf::Normal(y)) => bytes_less(x, y),
        _ => rank(a) < rank(b),
    }
}

pub open spec fn components_less(
    a: Seq<ComponentOf<Seq<u8>>>,
    b: Seq<ComponentOf<Seq<u8>>>,
) -> bool
    decreases a.len(),
{
    if b.len() == 0 {
        false
    } else if a.len() == 0 {
        true
    } else if a[0] == b[0] {
        components_less(a.drop_first(), b.drop_first())
    } else {
        component_less(a[0], b[0])
    }
}

/// Paths are ordered component by component.
pub open spec fn path_less(a: Seq<u8>, b: Seq<u8>) -> bool {
    components_less(components(a), components(b))
}

proof fn lemma_component_order(
    a: ComponentOf<Seq<u8>>,
    b: ComponentOf<Seq<u8>>,
    c: ComponentOf<Seq<u8>>,
)
    ensures
        a == b || component_less(a, b) || component_less(b, a),
        component_less(a, b) ==> !component_less(b, a),
        component_less(a, b) && component_less(b, c) ==> component_less(a, c),
{
    if let ComponentOf::Normal(x) = a {
        if let ComponentOf::Normal(y) = b {
            lemma_bytes_less_total(x, y);
            lemma_bytes_less_asymmetric(x, y);
            if let ComponentOf::Normal(z) = c {
                if bytes_less(x, y) && bytes_less(y, z) {
                    lemma_bytes_less_transitive(x, y, z);
                }
            }
        }
    }
}

proof fn lemma_components_total(a: Seq<ComponentOf<Seq<u8>>>, b: Seq<ComponentOf<Seq<u8>>>)
    ensures
        a == b || components_less(a, b) || components_less(b, a),
        components_less(a, b) ==> !components_less(b, a),
    decreases a.len(),
{
    if a.len() > 0 && b.len() > 0 {
        lemma_component_order(a[0], b[0], b[0]);
        if a[0] == b[0] {
            lemma_components_total(a.drop_first(), b.drop_first());
            assert(a =~= seq![a[0]] + a.drop_first());
            assert(b =~= seq![b[0]] + b.drop_first());
        }
    } else {
        assert(a.len() == 0 && b.len() == 0 ==> a =~= b);
    }
}

proof fn lemma_components_transitive(
    a: Seq<ComponentOf<Seq<u8>>>,
    b: Seq<ComponentOf<Seq<u8>>>,
    c: Seq<ComponentOf<Seq<u8>>>,
)
    requires
        components_less(a, b),
        components_less(b, c),
    ensures
        components_less(a, c),
    decreases a.len(),
{
    if a.len() > 0 {
        lemma_component_order(a[0], b[0], c[0]);
        lemma_component_order(b[0], c[0], a[0]);
        if a[0] == b[0] && b[0] == c[0] {
            lemma_components_transitive(a.drop_first(), b.drop_first(), c.drop_first());
        }
    }
}

/// Two paths are the same path or one comes before the other, never both.
pub proof fn lemma_path_order_total(a: Seq<u8>, b: Seq<u8>)
    ensures
        components(a) == components(b) || path_less(a, b) || path_less(b, a),
        path_less(a, b) ==> !path_less(b, a),
{
    lemma_components_total(components(a), components(b));
}

pub proof fn lemma_path_order_transitive(a: Seq<u8>, b: Seq<u8>, c: Seq<u8>)
    requires
        path_less(a, b),
        path_less(b, c),
    ensures
        path_less(a, c),
{
    lemma_components_transitive(components(a), components(b), components(c));
}

/// How much of a component has been read: the bytes of its piece.
spec fn size(part: ComponentOf<Seq<u8>>) -> nat {
    match part {
        ComponentOf::RootDir => 1,
        ComponentOf::CurDir => 1,
        ComponentOf::ParentDir => 2,
        ComponentOf::Normal(name) => name.len(),
    }
}

/// `b` has as many components as `a`, or more, and a last one as long as that
/// of `a`, or longer; only the same components are as long.
spec fn grown(a: Seq<ComponentOf<Seq<u8>>>, b: Seq<ComponentOf<Seq<u8>>>) -> bool {
    ||| a.len() < b.len()
    ||| a == b
    ||| a.len() == b.len() && a.len() > 0 && size(a.last()) < size(b.last())
}

/// How one more byte changes the components: not at all, by a component more,
/// or by a longer last one.
spec fn read_on(
    before: Seq<ComponentOf<Seq<u8>>>,
    after: Seq<ComponentOf<Seq<u8>>>,
    byte: u8,
    piece: Seq<u8>,
    first: bool,
) -> bool {
    if byte == SLASH {
        if first && piece.len() == 0 {
            after.len() == before.len() + 1 && after.drop_last() == before
        } else {
            after == before
        }
    } else if piece.len() == 0 && byte == DOT && !first {
        after == before
    } else if piece.len() == 0 || (piece == seq![DOT] && !first) {
        after.len() == before.len() + 1 && after.drop_last() == before
    } else {
        &&& after.len() == before.len() > 0
        &&& after.drop_last() == before.drop_last()
        &&& size(before.last()) < size(after.last())
    }
}

proof fn lemma_steps_have_no_root(pieces: Seq<Seq<u8>>)
    ensures
        forall|i: int|
            0 <= i < steps(pieces).len() ==> #[trigger] steps(pieces)[i]
                != ComponentOf::<Seq<u8>>::RootDir,
    decreases pieces.len(),
{
    if pieces.len() > 0 {
        lemma_steps_have_no_root(pieces.drop_last());
    }
}

/// One more byte, seen from the components read so far.
proof fn lemma_read_on(s: Seq<u8>, i: int)
    requires
        0 <= i < s.len(),
    ensures
        read_on(
            components(s.take(i)),
            components(s.take(i + 1)),
            s[i],
            split(s.take(i), seq![SLASH]).last(),
            split(s.take(i), seq![SLASH]).len() == 1,
        ),
        split(s.take(i), seq![SLASH]).len() == 1 ==> split(s.take(i), seq![SLASH]).last() == s.take(
            i,
        ),
{
    reveal(components);
    let slash = seq![SLASH];
    let t = s.take(i);
    let u = s.take(i + 1);
    assert(u.drop_last() =~= t);
    assert(u.last() == s[i]);
    let a = split(t, slash);
    let b = split(u, slash);
    lemma_split_nonempty(t, slash);
    lemma_first_piece(t);
    assert(slash[0] == SLASH);
    assert(slash.contains(s[i]) == (s[i] == SLASH));
    let front = steps(a.drop_last());
    assert(components(t) =~= lead(t) + front + step(a.last()));
    if s[i] == SLASH {
        assert(b == a.push(Seq::<u8>::empty()));
        assert(b.drop_last() =~= a);
        assert(steps(b) =~= steps(a));
        if i == 0 {
            assert(t =~= Seq::<u8>::empty());
            assert(components(t) =~= Seq::empty());
            assert(components(u) =~= seq![ComponentOf::<Seq<u8>>::RootDir]);
            assert(components(u).drop_last() =~= components(t));
        } else {
            assert(u[0] == t[0]);
            assert(b[0] == a[0]);
            assert(lead(u) == lead(t));
            if a.len() == 1 && a.last().len() == 0 {
                assert(false);
            }
        }
    } else {
        assert(b == a.drop_last().push(a.last().push(s[i])));
        assert(b.drop_last() =~= a.drop_last());
        assert(components(u) =~= lead(u) + front + step(b.last()));
        assert(b.last() == a.last().push(s[i]));
        if a.len() == 1 {
            assert(front =~= Seq::empty());
            assert(a[0] == t);
            assert(b[0] =~= u);
            assert(seq![DOT].len() == 1);
            if i > 0 {
                assert(u[0] == t[0]);
                assert(!is_absolute(t)) by {
                    if is_absolute(t) {
                        lemma_absolute_has_pieces(t);
                    }
                }
                assert(t == seq![DOT] ==> t[0] == DOT);
                assert(components(u).drop_last() =~= components(t).drop_last());
            } else {
                assert(u =~= seq![s[0]]);
                assert(components(t) =~= Seq::empty());
                assert(components(u).drop_last() =~= components(t));
            }
        } else {
            assert(i > 0);
            assert(u[0] == t[0]);
            assert(b[0] == a[0]);
            assert(lead(u) == lead(t));
            assert(b.last().len() == a.last().len() + 1);
            if a.last().len() == 0 {
                assert(b.last() =~= seq![s[i]]);
                if s[i] == DOT {
                    assert(components(u) =~= components(t));
                } else {
                    assert(b.last() != seq![DOT]) by {
                        assert(b.last()[0] == s[i]);
                    }
                    assert(components(u).drop_last() =~= components(t));
                }
            } else {
                assert(b.last() != seq![DOT]);
                if a.last() == seq![DOT] {
                    assert(components(u).drop_last() =~= components(t));
                } else {
                    assert(components(u).drop_last() =~= components(t).drop_last());
                    assert(components(u).last() == step(b.last())[0]);
                    assert(components(t).last() == step(a.last())[0]);
                    assert(a.last() == seq![DOT, DOT] ==> a.last().len() == 2);
                    assert(b.last() == seq![DOT, DOT] ==> a.last() =~= seq![DOT]);
                }
            }
        }
    }
}

/// While no slash has been read, the whole string is the only piece.
proof fn lemma_first_piece(s: Seq<u8>)
    ensures
        split(s, seq![SLASH]).len() == 1 ==> split(s, seq![SLASH])[0] == s,
    decreases s.len(),
{
    if s.len() > 0 {
        lemma_first_piece(s.drop_last());
        lemma_split_nonempty(s.drop_last(), seq![SLASH]);
        assert(s =~= s.drop_last().push(s.last()));
    } else {
        assert(s =~= Seq::<u8>::empty());
    }
}

proof fn lemma_absolute_has_pieces(s: Seq<u8>)
    requires
        is_absolute(s),
    ensures
        split(s, seq![SLASH]).len() > 1,
    decreases s.len(),
{
    let t = s.drop_last();
    lemma_split_nonempty(t, seq![SLASH]);
    assert(seq![SLASH][0] == SLASH);
    if s.len() > 1 {
        assert(t[0] == s[0]);
        lemma_absolute_has_pieces(t);
    }
}

/// Components only ever grow along a path.
proof fn lemma_grown(s: Seq<u8>, j: int, i: int)
    requires
        0 <= j <= i <= s.len(),
    ensures
        grown(components(s.take(j)), components(s.take(i))),
    decreases i - j,
{
    if j < i {
        lemma_grown(s, j, i - 1);
        lemma_read_on(s, i - 1);
    }
}

/// `k` is the length of the shortest prefix of `s` with the components `parts`.
spec fn is_shortest(s: Seq<u8>, k: int, parts: Seq<ComponentOf<Seq<u8>>>) -> bool {
    &&& 0 <= k <= s.len()
    &&& components(s.take(k)) == parts
    &&& forall|j: int| 0 <= j < k ==> components(#[trigger] s.take(j)) != parts
}

proof fn lemma_shortest(s: Seq<u8>, k: int, parts: Seq<ComponentOf<Seq<u8>>>, from: nat)
    requires
        is_shortest(s, k, parts),
        from <= k,
    ensures
        shortest(s, parts, from) == k,
    decreases k - from,
{
    if from < k {
        assert(components(s.take(from as int)) != parts);
        lemma_shortest(s, k, parts, from + 1);
    }
}

/// The root is the only component of a path that ends in it.
proof fn lemma_root_is_first(s: Seq<u8>)
    requires
        components(s).len() > 0,
    ensures
        (components(s).last() == ComponentOf::<Seq<u8>>::RootDir) == (is_absolute(s) && components(
            s,
        ).len() == 1),
{
    reveal(components);
    let tail = steps(split(s, seq![SLASH]));
    lemma_steps_have_no_root(split(s, seq![SLASH]));
    if tail.len() > 0 {
        assert(components(s).last() == tail[tail.len() - 1]);
    } else {
        assert(components(s) =~= lead(s));
    }
}

/// A parent is shorter than its path.
pub proof fn lemma_parent_shorter(s: Seq<u8>)
    requires
        parent(s) is Some,
    ensures
        parent(s)->0.len() < s.len(),
        components(parent(s)->0) == components(s).drop_last(),
        parent(s)->0.is_prefix_of(s),
{
    let k = lemma_parent_exists(s);
    lemma_shortest(s, k, components(s).drop_last(), 0);
    assert(s.take(s.len() as int) =~= s);
}

/// Where the parent of a path ends.
proof fn lemma_parent_exists(s: Seq<u8>) -> (k: int)
    requires
        parent(s) is Some,
    ensures
        is_shortest(s, k, components(s).drop_last()),
    decreases s.len(),
{
    if s.len() == 0 {
        reveal(components);
        assert(split(s, seq![SLASH]) =~= seq![Seq::<u8>::empty()]);
        assert(steps(split(s, seq![SLASH])) =~= Seq::empty()) by {
            reveal_with_fuel(steps, 2);
        }
        assert(components(s) =~= Seq::empty());
        0
    } else {
        let i = s.len() - 1;
        let t = s.drop_last();
        assert(t =~= s.take(i));
        assert(s.take(i + 1) =~= s);
        lemma_read_on(s, i);
        if components(t).len() < components(s).len() {
            let parts = components(t);
            let k = lemma_trimmed(t);
            assert forall|j: int| 0 <= j < k implies components(#[trigger] s.take(j)) != parts by {
                assert(s.take(j) =~= t.take(j));
            }
            assert(s.take(k) =~= t.take(k));
            k
        } else {
            lemma_root_is_first(s);
            lemma_root_is_first(t);
            let parts = components(s).drop_last();
            if components(t).last() == ComponentOf::<Seq<u8>>::RootDir {
                assert(t[0] == s[0]);
            }
            let k = lemma_parent_exists(t);
            assert forall|j: int| 0 <= j < k implies components(#[trigger] s.take(j)) != parts by {
                assert(s.take(j) =~= t.take(j));
            }
            assert(s.take(k) =~= t.take(k));
            k
        }
    }
}

/// The shortest prefix that holds all the components of a path.
proof fn lemma_trimmed(s: Seq<u8>) -> (k: int)
    ensures
        is_shortest(s, k, components(s)),
    decreases s.len(),
{
    if s.len() == 0 {
        assert(s.take(0) =~= s);
        0
    } else {
        let i = s.len() - 1;
        let t = s.drop_last();
        assert(t =~= s.take(i));
        assert(s.take(i + 1) =~= s);
        if components(t) == components(s) {
            let k = lemma_trimmed(t);
            assert forall|j: int| 0 <= j < k implies components(#[trigger] s.take(j)) != components(
                s,
            ) by {
                assert(s.take(j) =~= t.take(j));
            }
            assert(s.take(k) =~= t.take(k));
            k
        } else {
            lemma_read_on(s, i);
            assert forall|j: int| 0 <= j < s.len() implies components(#[trigger] s.take(j))
                != components(s) by {
                lemma_grown(s, j, i);
            }
            s.len() as int
        }
    }
}

/// A path on the host, byte for byte as the host spells it.
#[derive(Clone, Debug, PartialEq, Eq)]
pub struct HostPath {
    pub bytes: Vec<u8>,
}

impl View for HostPath {
    type V = Seq<u8>;

    open spec fn view(&self) -> Seq<u8> {
        self.bytes@
    }
}

/// What lies under a path that lies under another lies under that one too.
pub proof fn lemma_under_transitive(a: Seq<u8>, b: Seq<u8>, c: Seq<u8>)
    requires
        is_under(a, b),
        is_under(b, c),
    ensures
        is_under(a, c),
{
    let x = components(a);
    let y = components(b);
    let z = components(c);
    assert forall|i: int| 0 <= i < z.len() implies z[i] == x[i] by {
        assert(y.subrange(0, z.len() as int)[i] == y[i]);
        assert(x.subrange(0, y.len() as int)[i] == x[i]);
    }
    assert(z =~= x.subrange(0, z.len() as int));
}

/// A path lies at or below itself.
pub proof fn lemma_under_itself(a: Seq<u8>)
    ensures
        is_under(a, a),
{
    assert(components(a).subrange(0, components(a).len() as int) =~= components(a));
}

/// A path lies below its parent.
pub proof fn lemma_under_parent(a: Seq<u8>)
    requires
        parent(a) is Some,
    ensures
        is_under(a, parent(a)->0),
{
    lemma_parent_shorter(a);
    let parts = components(a);
    assert(parts.drop_last() =~= parts.subrange(0, parts.len() - 1));
}

/// A path lies at or below each of its ancestors, the first of which is the path.
pub proof fn lemma_under_ancestors(a: Seq<u8>)
    ensures
        ancestors(a).len() > 0,
        ancestors(a)[0] == a,
        forall|i: int| 0 <= i < ancestors(a).len() ==> is_under(a, #[trigger] ancestors(a)[i]),
    decreases a.len(),
{
    lemma_under_itself(a);
    if let Some(above) = parent(a) {
        lemma_parent_shorter(a);
        lemma_under_parent(a);
        lemma_under_ancestors(above);
        assert forall|i: int| 0 <= i < ancestors(a).len() implies is_under(
            a,
            #[trigger] ancestors(a)[i],
        ) by {
            if i > 0 {
                assert(ancestors(a)[i] == ancestors(above)[i - 1]);
                lemma_under_transitive(a, above, ancestors(above)[i - 1]);
            }
        }
    }
}

pub fn component_equal(a: &Component, b: &Component) -> (r: bool)
    ensures
        r == (a@ == b@),
{
    match (a, b) {
        (ComponentOf::RootDir, ComponentOf::RootDir) => true,
        (ComponentOf::CurDir, ComponentOf::CurDir) => true,
        (ComponentOf::ParentDir, ComponentOf::ParentDir) => true,
        (ComponentOf::Normal(x), ComponentOf::Normal(y)) => bytes_equal(x.as_slice(), y.as_slice()),
        _ => false,
    }
}

pub fn component_before(a: &Component, b: &Component) -> (r: bool)
    ensures
        r == component_less(a@, b@),
{
    match (a, b) {
        (ComponentOf::Normal(x), ComponentOf::Normal(y)) => bytes_before(
            x.as_slice(),
            y.as_slice(),
        ),
        (ComponentOf::RootDir, ComponentOf::RootDir) => false,
        (ComponentOf::RootDir, _) => true,
        (ComponentOf::CurDir, ComponentOf::ParentDir) => true,
        (ComponentOf::CurDir, ComponentOf::Normal(_)) => true,
        (ComponentOf::ParentDir, ComponentOf::Normal(_)) => true,
        _ => false,
    }
}

impl HostPath {
    pub fn new(text: &str) -> (r: HostPath)
        ensures
            r@ == bytes_of(text@),
    {
        HostPath { bytes: text_bytes(text) }
    }

    pub fn from_bytes(bytes: &[u8]) -> (r: HostPath)
        ensures
            r@ == bytes@,
    {
        HostPath { bytes: copy_bytes(bytes) }
    }

    pub fn copy(&self) -> (r: HostPath)
        ensures
            r@ == self@,
    {
        HostPath { bytes: copy_bytes(self.bytes.as_slice()) }
    }

    pub fn is_absolute(&self) -> (r: bool)
        ensures
            r == is_absolute(self@),
    {
        self.bytes.len() > 0 && self.bytes[0] == SLASH
    }

    /// The steps of the path, redundant slashes and dots left out.
    pub fn components(&self) -> (r: Vec<Component>)
        ensures
            views(r@) == components(self@),
    {
        let pieces = split_bytes(self.bytes.as_slice(), &[SLASH]);
        proof {
            reveal(components);
            lemma_split_nonempty(self@, seq![SLASH]);
            assert([SLASH]@ =~= seq![SLASH]);
        }
        let ghost parted = views(pieces@);
        assert(parted == split(self@, seq![SLASH]));
        let mut parts: Vec<Component> = Vec::new();
        if self.is_absolute() {
            parts.push(ComponentOf::RootDir);
        } else if pieces[0].len() == 1 && pieces[0][0] == DOT {
            assert(parted[0] =~= seq![DOT]);
            parts.push(ComponentOf::CurDir);
        } else {
            assert(parted[0] == pieces@[0]@);
        }
        assert(views(parts@) =~= lead(self@));
        let mut i: usize = 0;
        assert(parted.take(0) =~= Seq::empty());
        assert(views(parts@) =~= lead(self@) + steps(parted.take(0)));
        while i < pieces.len()
            invariant
                i <= pieces.len(),
                parted == views(pieces@),
                views(parts@) == lead(self@) + steps(parted.take(i as int)),
            decreases pieces.len() - i,
        {
            let piece = &pieces[i];
            let ghost before = views(parts@);
            assert(parted.take(i + 1).drop_last() =~= parted.take(i as int));
            assert(parted.take(i + 1).last() == piece@);
            if piece.len() == 0 || (piece.len() == 1 && piece[0] == DOT) {
                assert(piece.len() == 1 ==> piece@ =~= seq![DOT]);
            } else if piece.len() == 2 && piece[0] == DOT && piece[1] == DOT {
                assert(piece@ =~= seq![DOT, DOT]);
                parts.push(ComponentOf::ParentDir);
            } else {
                assert(piece@ == seq![DOT] ==> piece@[0] == DOT);
                assert(piece@ == seq![DOT, DOT] ==> piece@[0] == DOT && piece@[1] == DOT);
                parts.push(ComponentOf::Normal(copy_bytes(piece.as_slice())));
            }
            assert(views(parts@) =~= lead(self@) + steps(parted.take(i + 1)));
            i += 1;
        }
        assert(parted.take(parted.len() as int) =~= parted);
        parts
    }

    /// Whether both spell the same path.
    pub fn same(&self, other: &HostPath) -> (r: bool)
        ensures
            r == (components(self@) == components(other@)),
    {
        let a = self.components();
        let b = other.components();
        if a.len() != b.len() {
            assert(views(a@).len() == a.len());
            return false;
        }
        let mut i: usize = 0;
        while i < a.len()
            invariant
                a@.len() == b@.len(),
                views(a@) == components(self@),
                views(b@) == components(other@),
                i <= a.len(),
                forall|j: int| 0 <= j < i ==> views(a@)[j] == views(b@)[j],
            decreases a.len() - i,
        {
            if !component_equal(&a[i], &b[i]) {
                assert(views(a@)[i as int] != views(b@)[i as int]);
                return false;
            }
            i += 1;
        }
        assert(views(a@) =~= views(b@));
        true
    }

    /// Whether the path lies at or below `root`.
    pub fn starts_with(&self, root: &HostPath) -> (r: bool)
        ensures
            r == is_under(self@, root@),
    {
        let whole = self.components();
        let start = root.components();
        if start.len() > whole.len() {
            return false;
        }
        let mut i: usize = 0;
        while i < start.len()
            invariant
                start@.len() <= whole@.len(),
                views(whole@) == components(self@),
                views(start@) == components(root@),
                i <= start.len(),
                forall|j: int| 0 <= j < i ==> views(whole@)[j] == views(start@)[j],
            decreases start.len() - i,
        {
            if !component_equal(&whole[i], &start[i]) {
                assert(views(whole@).subrange(0, start@.len() as int)[i as int] != views(
                    start@,
                )[i as int]);
                return false;
            }
            i += 1;
        }
        assert(views(start@) =~= views(whole@).subrange(0, start@.len() as int));
        true
    }

    pub fn join(&self, rest: &HostPath) -> (r: HostPath)
        ensures
            r@ == join(self@, rest@),
    {
        if rest.is_absolute() {
            return rest.copy();
        }
        let mut bytes = copy_bytes(self.bytes.as_slice());
        if bytes.len() > 0 && bytes[bytes.len() - 1] != SLASH {
            bytes.push(SLASH);
        }
        let mut tail = copy_bytes(rest.bytes.as_slice());
        bytes.append(&mut tail);
        HostPath { bytes }
    }

    /// `join` with a path written out in the program.
    pub fn join_text(&self, rest: &str) -> (r: HostPath)
        ensures
            r@ == join(self@, bytes_of(rest@)),
    {
        self.join(&HostPath::new(rest))
    }

    pub fn file_name(&self) -> (r: Option<Vec<u8>>)
        ensures
            match r {
                Some(name) => file_name(self@) == Some(name@),
                None => file_name(self@) is None,
            },
    {
        let mut parts = self.components();
        let ghost all = views(parts@);
        match parts.pop() {
            Some(ComponentOf::Normal(name)) => {
                assert(all.last() == ComponentOf::Normal(name@));
                Some(name)
            },
            Some(part) => {
                assert(all.last() == part@);
                None
            },
            None => None,
        }
    }

    /// Whether the path comes before `other`, component by component.
    pub fn before(&self, other: &HostPath) -> (r: bool)
        ensures
            r == path_less(self@, other@),
    {
        let a = self.components();
        let b = other.components();
        let ghost x = views(a@);
        let ghost y = views(b@);
        let mut i: usize = 0;
        assert(x.skip(0) =~= x);
        assert(y.skip(0) =~= y);
        while i < a.len() && i < b.len()
            invariant
                x == views(a@),
                y == views(b@),
                x == components(self@),
                y == components(other@),
                i <= a.len(),
                i <= b.len(),
                components_less(x, y) == components_less(x.skip(i as int), y.skip(i as int)),
            decreases a.len() - i,
        {
            assert(x.skip(i as int)[0] == a@[i as int]@);
            assert(y.skip(i as int)[0] == b@[i as int]@);
            if !component_equal(&a[i], &b[i]) {
                return component_before(&a[i], &b[i]);
            }
            assert(x.skip(i as int).drop_first() =~= x.skip(i + 1));
            assert(y.skip(i as int).drop_first() =~= y.skip(i + 1));
            i += 1;
        }
        i < b.len()
    }

    /// The path and every path above it, from the bottom up.
    pub fn ancestors(&self) -> (r: Vec<HostPath>)
        ensures
            views(r@) == ancestors(self@),
    {
        let mut done: Vec<HostPath> = Vec::new();
        let mut current = self.copy();
        assert(views(done@) + ancestors(current@) =~= ancestors(self@));
        loop
            invariant
                views(done@) + ancestors(current@) == ancestors(self@),
            decreases current@.len(),
        {
            let ghost before = views(done@);
            let ghost here = current@;
            match current.parent() {
                Some(above) => {
                    proof {
                        lemma_parent_shorter(here);
                    }
                    done.push(current);
                    current = above;
                    assert(views(done@) + ancestors(current@) =~= before + ancestors(here));
                },
                None => {
                    done.push(current);
                    assert(views(done@) =~= before + ancestors(here));
                    return done;
                },
            }
        }
    }

    pub fn parent(&self) -> (r: Option<HostPath>)
        ensures
            match r {
                Some(path) => parent(self@) == Some(path@),
                None => parent(self@) is None,
            },
    {
        let bytes = &self.bytes;
        let ghost s = self@;
        let mut count: usize = 0;
        let mut end: usize = 0;
        let mut above: usize = 0;
        let mut start: usize = 0;
        let mut i: usize = 0;
        proof {
            assert(s.take(0) =~= Seq::<u8>::empty());
            assert(split(s.take(0), seq![SLASH]) =~= seq![Seq::<u8>::empty()]);
            reveal_with_fuel(steps, 2);
            assert(components(s.take(0)) =~= Seq::empty()) by {
                reveal(components);
            }
            assert(s.subrange(0, 0) =~= Seq::<u8>::empty());
        }
        while i < bytes.len()
            invariant
                s == bytes@,
                start <= i <= bytes.len(),
                end <= i,
                above <= i,
                count <= i,
                components(s.take(i as int)).len() == count,
                split(s.take(i as int), seq![SLASH]).last() == s.subrange(start as int, i as int),
                (split(s.take(i as int), seq![SLASH]).len() == 1) == (start == 0),
                is_shortest(s, end as int, components(s.take(i as int))),
                count > 0 ==> is_shortest(
                    s,
                    above as int,
                    components(s.take(i as int)).drop_last(),
                ),
            decreases bytes.len() - i,
        {
            let ghost piece = s.subrange(start as int, i as int);
            let ghost before = components(s.take(i as int));
            let ghost after = components(s.take(i + 1));
            proof {
                lemma_read_on(s, i as int);
                lemma_split_nonempty(s.take(i as int), seq![SLASH]);
                assert(s.take(i + 1).drop_last() =~= s.take(i as int));
                assert(seq![SLASH][0] == SLASH);
                if after != before {
                    assert forall|j: int| 0 <= j < i + 1 implies components(#[trigger] s.take(j))
                        != after by {
                        lemma_grown(s, j, i as int);
                    }
                }
            }
            let byte = bytes[i];
            if byte == SLASH {
                if i == 0 {
                    above = end;
                    end = 1;
                    count = 1;
                }
                start = i + 1;
                assert(s.subrange(start as int, i + 1) =~= Seq::<u8>::empty());
            } else {
                assert(s.subrange(start as int, i + 1) =~= piece.push(byte));
                if i == start {
                    if byte != DOT || start == 0 {
                        above = end;
                        end = i + 1;
                        count = count + 1;
                    }
                } else if i - start == 1 && bytes[start] == DOT && start > 0 {
                    assert(piece =~= seq![DOT]);
                    above = end;
                    end = i + 1;
                    count = count + 1;
                } else {
                    assert(piece == seq![DOT] ==> piece[0] == DOT);
                    end = i + 1;
                }
            }
            i += 1;
        }
        assert(s.take(s.len() as int) =~= s);
        if count == 0 {
            return None;
        }
        proof {
            lemma_root_is_first(s);
        }
        if count == 1 && self.is_absolute() {
            return None;
        }
        proof {
            lemma_shortest(s, above as int, components(s).drop_last(), 0);
        }
        Some(HostPath::from_bytes(slice_subrange(bytes.as_slice(), 0, above)))
    }
}

pub fn copy_paths(paths: &Vec<HostPath>) -> (r: Vec<HostPath>)
    ensures
        views(r@) == views(paths@),
{
    let ghost all = views(paths@);
    let mut copies: Vec<HostPath> = Vec::new();
    let mut i: usize = 0;
    assert(all.take(0) =~= Seq::empty());
    while i < paths.len()
        invariant
            i <= paths.len(),
            all == views(paths@),
            views(copies@) == all.take(i as int),
        decreases paths.len() - i,
    {
        assert(all.take(i + 1) =~= all.take(i as int).push(paths@[i as int]@));
        copies.push(paths[i].copy());
        i += 1;
    }
    assert(all.take(all.len() as int) =~= all);
    copies
}

/// What a piece without slashes adds to the path before it: nothing if it is empty or
/// one dot, a step up if it is two dots, and else its name.
pub open spec fn meaning(piece: Seq<u8>) -> Seq<ComponentOf<Seq<u8>>> {
    if piece.len() == 0 || piece == seq![0x2eu8] {
        Seq::empty()
    } else if piece == seq![0x2eu8, 0x2eu8] {
        seq![ComponentOf::ParentDir]
    } else {
        seq![ComponentOf::Normal(piece)]
    }
}

/// A path without slashes is what it means, but for a single dot, which is the current
/// directory; with a slash before it, it is that below the root.
pub proof fn law_first_piece(piece: Seq<u8>)
    requires
        !piece.contains(0x2f),
    ensures
        piece == seq![0x2eu8] ==> components(piece) == seq![ComponentOf::<Seq<u8>>::CurDir],
        piece != seq![0x2eu8] ==> components(piece) == meaning(piece),
        components(seq![0x2fu8] + piece) == seq![ComponentOf::<Seq<u8>>::RootDir] + meaning(piece),
{
    reveal(components);
    reveal_with_fuel(steps, 3);
    lemma_split_one(piece, SLASH);
    let none = Seq::<u8>::empty();
    assert(!none.contains(SLASH));
    assert(none.push(SLASH) + piece =~= seq![0x2fu8] + piece);
    lemma_split_on(none, SLASH, piece);
    lemma_split_one(none, SLASH);
    if is_absolute(piece) {
        assert(piece.contains(piece[0]));
    }
    assert(seq![piece].drop_last() =~= Seq::empty());
    assert(steps(seq![piece]) =~= step(piece));
    let pieces = seq![none].push(piece);
    assert(pieces.drop_last() =~= seq![none]);
    assert(seq![none].drop_last() =~= Seq::empty());
    assert(steps(seq![none]) =~= Seq::empty());
    assert(steps(pieces) =~= step(piece));
    assert(step(piece) == meaning(piece));
    assert(components(piece) =~= lead(piece) + step(piece));
    assert((seq![0x2fu8] + piece)[0] == SLASH);
}

/// A slash and a piece without slashes behind a path add what the piece means.
pub proof fn law_next_piece(s: Seq<u8>, piece: Seq<u8>)
    requires
        s.len() > 0,
        !piece.contains(0x2f),
    ensures
        components(s.push(0x2f) + piece) == components(s) + meaning(piece),
{
    reveal(components);
    let whole = s.push(SLASH) + piece;
    let pieces = split(s, seq![SLASH]);
    lemma_split_on(s, SLASH, piece);
    lemma_split_nonempty(s, seq![SLASH]);
    assert(pieces.push(piece).drop_last() =~= pieces);
    assert(pieces.push(piece)[0] == pieces[0]);
    assert(whole[0] == s[0]);
    assert(lead(whole) == lead(s));
    assert(step(piece) == meaning(piece));
    assert(lead(s) + (steps(pieces) + step(piece)) =~= (lead(s) + steps(pieces)) + step(piece));
}

/// One path and another behind it: an absolute one stands for itself, and a piece
/// without slashes adds what it means.
pub proof fn law_joined(base: Seq<u8>, rest: Seq<u8>)
    ensures
        is_absolute(rest) ==> join(base, rest) == rest,
        base.len() > 0 && !rest.contains(0x2f) ==> components(join(base, rest)) == components(base)
            + meaning(rest),
        base.len() == 0 ==> join(base, rest) == rest,
{
    if base.len() == 0 {
        assert(base + rest =~= rest);
    } else if !rest.contains(0x2f) {
        if is_absolute(rest) {
            assert(rest.contains(rest[0]));
        }
        if base.last() != SLASH {
            law_next_piece(base, rest);
        } else {
            let front = base.drop_last();
            let none = Seq::<u8>::empty();
            assert(!none.contains(0x2f));
            assert(base =~= front.push(0x2f));
            assert(base =~= front.push(0x2f) + none);
            if front.len() > 0 {
                law_next_piece(front, rest);
                law_next_piece(front, none);
                assert(components(front) + meaning(none) =~= components(front));
            } else {
                law_first_piece(rest);
                law_first_piece(none);
                assert(base =~= seq![0x2fu8] + none);
                assert(base + rest =~= seq![0x2fu8] + rest);
                assert(seq![ComponentOf::<Seq<u8>>::RootDir] + meaning(none) =~= seq![
                    ComponentOf::<Seq<u8>>::RootDir,
                ]);
            }
        }
    }
}

/// The parent of a path is its shortest start that has all its steps but the last;
/// only the root and the empty path have none.
pub proof fn law_parents(s: Seq<u8>)
    ensures
        parent(s) is None <==> components(s).len() == 0 || components(s).last() == ComponentOf::<
            Seq<u8>,
        >::RootDir,
        parent(s) matches Some(above) ==> above.is_prefix_of(s) && above.len() < s.len()
            && components(above) == components(s).drop_last() && forall|n: int|
            0 <= n < above.len() ==> components(#[trigger] s.take(n)) != components(above),
{
    if parent(s) is Some {
        lemma_parent_shorter(s);
        let parts = components(s).drop_last();
        let k = lemma_parent_exists(s);
        lemma_shortest(s, k, parts, 0);
        let above = parent(s)->0;
        assert(above.len() == k);
    }
}

/// The paths above a path, from the path itself up: each is the parent of the one
/// before it, and the last has none.
pub proof fn law_ancestors(s: Seq<u8>)
    ensures
        ancestors(s).len() > 0,
        ancestors(s)[0] == s,
        forall|i: int|
            0 <= i < ancestors(s).len() - 1 ==> parent(#[trigger] ancestors(s)[i]) == Some(
                ancestors(s)[i + 1],
            ),
        parent(ancestors(s).last()) is None,
    decreases s.len(),
{
    if let Some(above) = parent(s) {
        lemma_parent_shorter(s);
        law_ancestors(above);
        let tree = ancestors(s);
        let rest = ancestors(above);
        assert(tree == seq![s] + rest);
        assert forall|i: int| 0 <= i < tree.len() - 1 implies parent(#[trigger] tree[i]) == Some(
            tree[i + 1],
        ) by {
            if i > 0 {
                assert(tree[i] == rest[i - 1]);
                assert(tree[i + 1] == rest[i]);
            } else {
                assert(tree[1] == rest[0]);
            }
        }
        assert(tree.last() == rest.last());
    }
}

/// A path lies at or below another exactly if it takes the same steps and then some.
pub proof fn law_under(p: Seq<u8>, root: Seq<u8>)
    ensures
        is_under(p, root) <==> exists|more: Seq<ComponentOf<Seq<u8>>>|
            components(p) == #[trigger] (components(root) + more),
{
    let a = components(p);
    let b = components(root);
    if is_under(p, root) {
        assert(a =~= b + a.skip(b.len() as int)) by {
            assert forall|i: int| 0 <= i < b.len() implies a[i] == b[i] by {
                assert(a.subrange(0, b.len() as int)[i] == a[i]);
            }
        }
    }
    if exists|more: Seq<ComponentOf<Seq<u8>>>| a == #[trigger] (b + more) {
        let more = choose|more: Seq<ComponentOf<Seq<u8>>>| a == #[trigger] (b + more);
        assert(b =~= a.subrange(0, b.len() as int));
    }
}

/// Where two paths first differ, a step of another kind decides by the kind: the root,
/// then the current directory, then a step up, then names; and of two names the one
/// that comes first by its bytes. A path comes before everything below it.
pub proof fn law_path_order(
    p: Seq<u8>,
    q: Seq<u8>,
    common: Seq<ComponentOf<Seq<u8>>>,
    a: ComponentOf<Seq<u8>>,
    b: ComponentOf<Seq<u8>>,
    s: Seq<ComponentOf<Seq<u8>>>,
    t: Seq<ComponentOf<Seq<u8>>>,
)
    requires
        components(p) == common + seq![a] + s,
        components(q) == common + seq![b] + t || components(q) == common,
        a != b,
    ensures
        components(q) == common ==> path_less(q, p) && !path_less(p, q),
        components(q) == common + seq![b] + t ==> match (a, b) {
            (ComponentOf::Normal(x), ComponentOf::Normal(y)) => path_less(p, q) == bytes_less(x, y),
            (ComponentOf::Normal(_), _) => !path_less(p, q),
            (_, ComponentOf::Normal(_)) => path_less(p, q),
            (ComponentOf::RootDir, _) => path_less(p, q),
            (_, ComponentOf::RootDir) => !path_less(p, q),
            (ComponentOf::CurDir, _) => path_less(p, q),
            (_, ComponentOf::CurDir) => !path_less(p, q),
            _ => false,
        },
{
    if components(q) == common {
        lemma_start_is_less(common, seq![a] + s);
        assert(common + seq![a] + s =~= common + (seq![a] + s));
    }
    if components(q) == common + seq![b] + t {
        lemma_first_difference(common, a, b, s, t);
    }
}

proof fn lemma_start_is_less(common: Seq<ComponentOf<Seq<u8>>>, more: Seq<ComponentOf<Seq<u8>>>)
    requires
        more.len() > 0,
    ensures
        components_less(common, common + more),
        !components_less(common + more, common),
    decreases common.len(),
{
    if common.len() > 0 {
        let rest = common.drop_first();
        lemma_start_is_less(rest, more);
        assert((common + more).drop_first() =~= rest + more);
        assert((common + more)[0] == common[0]);
    }
}

proof fn lemma_first_difference(
    common: Seq<ComponentOf<Seq<u8>>>,
    a: ComponentOf<Seq<u8>>,
    b: ComponentOf<Seq<u8>>,
    s: Seq<ComponentOf<Seq<u8>>>,
    t: Seq<ComponentOf<Seq<u8>>>,
)
    requires
        a != b,
    ensures
        components_less(common + seq![a] + s, common + seq![b] + t) == component_less(a, b),
    decreases common.len(),
{
    let x = common + seq![a] + s;
    let y = common + seq![b] + t;
    if common.len() > 0 {
        let rest = common.drop_first();
        lemma_first_difference(rest, a, b, s, t);
        assert(x.drop_first() =~= rest + seq![a] + s);
        assert(y.drop_first() =~= rest + seq![b] + t);
        assert(x[0] == common[0] && y[0] == common[0]);
    } else {
        assert(x[0] == a && y[0] == b);
    }
}

/// The name of a path is its last step, where that is a name.
pub proof fn law_file_names(p: Seq<u8>, name: Seq<u8>)
    ensures
        file_name(p) == Some(name) <==> components(p).len() > 0 && components(p).last()
            == ComponentOf::Normal(name),
        file_name(p) is None <==> components(p).len() == 0 || !(components(p).last() is Normal),
{
}

} // verus!
