//! Environments: the one the process was started with, and the one it hands on.
use vstd::prelude::*;

use crate::bytes::{
    bytes_before, bytes_equal, bytes_less, copy_bytes, lemma_bytes_less_asymmetric,
    lemma_bytes_less_total, lemma_bytes_less_transitive,
};
use crate::views::views;

verus! {

broadcast use crate::views::group_views;

/// The variables of the process, in the order in which the host lists them.
#[derive(Clone, Debug, PartialEq, Eq)]
pub struct HostEnv {
    pub variables: Vec<(Vec<u8>, Vec<u8>)>,
}

impl View for HostEnv {
    type V = Seq<(Seq<u8>, Seq<u8>)>;

    open spec fn view(&self) -> Seq<(Seq<u8>, Seq<u8>)> {
        views(self.variables@)
    }
}

/// The value of the first variable, from the `i`-th on, of the given name.
pub open spec fn variable_from(vars: Seq<(Seq<u8>, Seq<u8>)>, name: Seq<u8>, i: nat) -> Option<
    Seq<u8>,
>
    decreases vars.len() - i,
{
    if i >= vars.len() {
        None
    } else if vars[i as int].0 == name {
        Some(vars[i as int].1)
    } else {
        variable_from(vars, name, i + 1)
    }
}

pub open spec fn variable(vars: Seq<(Seq<u8>, Seq<u8>)>, name: Seq<u8>) -> Option<Seq<u8>> {
    variable_from(vars, name, 0)
}

impl HostEnv {
    pub fn get<'a>(&'a self, name: &[u8]) -> (r: Option<&'a Vec<u8>>)
        ensures
            match r {
                Some(value) => variable(self@, name@) == Some(value@),
                None => variable(self@, name@) is None,
            },
    {
        let mut i: usize = 0;
        while i < self.variables.len()
            invariant
                i <= self.variables.len(),
                variable(self@, name@) == variable_from(self@, name@, i as nat),
            decreases self.variables.len() - i,
        {
            assert(self@[i as int] == self.variables@[i as int]@);
            if bytes_equal(self.variables[i].0.as_slice(), name) {
                return Some(&self.variables[i].1);
            }
            i += 1;
        }
        assert(self@.len() == i);
        None
    }
}

/// Entries with their names in strict dictionary order.
pub open spec fn names_ordered(entries: Seq<(Seq<u8>, Seq<u8>)>) -> bool {
    forall|i: int, j: int|
        0 <= i < j < entries.len() ==> bytes_less((#[trigger] entries[i]).0, (
        #[trigger] entries[j]).0)
}

/// The map that the entries list.
pub open spec fn listed(entries: Seq<(Seq<u8>, Seq<u8>)>) -> Map<Seq<u8>, Seq<u8>>
    decreases entries.len(),
{
    if entries.len() == 0 {
        Map::empty()
    } else {
        listed(entries.drop_last()).insert(entries.last().0, entries.last().1)
    }
}

/// The one listing of a map in order of its names.
pub open spec fn listing_of(map: Map<Seq<u8>, Seq<u8>>) -> Seq<(Seq<u8>, Seq<u8>)> {
    choose|entries: Seq<(Seq<u8>, Seq<u8>)>|
        names_ordered(entries) && #[trigger] listed(entries) == map
}

/// An environment to be handed on, listed by name.
#[derive(Debug, PartialEq, Eq)]
pub struct Environment {
    entries: Vec<(Vec<u8>, Vec<u8>)>,
}

impl View for Environment {
    type V = Map<Seq<u8>, Seq<u8>>;

    closed spec fn view(&self) -> Map<Seq<u8>, Seq<u8>> {
        listed(views(self.entries@))
    }
}

/// An ordered listing holds each variable of its map, with its value, and no other.
pub proof fn lemma_listed(entries: Seq<(Seq<u8>, Seq<u8>)>)
    requires
        names_ordered(entries),
    ensures
        forall|i: int|
            0 <= i < entries.len() ==> listed(entries).dom().contains((#[trigger] entries[i]).0)
                && listed(entries)[entries[i].0] == entries[i].1,
        forall|k: Seq<u8>| #[trigger]
            listed(entries).dom().contains(k) ==> exists|i: int|
                0 <= i < entries.len() && (#[trigger] entries[i]).0 == k,
    decreases entries.len(),
{
    if entries.len() > 0 {
        let front = entries.drop_last();
        assert(names_ordered(front)) by {
            assert forall|i: int, j: int| 0 <= i < j < front.len() implies bytes_less(
                (#[trigger] front[i]).0,
                (#[trigger] front[j]).0,
            ) by {
                assert(bytes_less(entries[i].0, entries[j].0));
            }
        }
        lemma_listed(front);
        assert forall|i: int| 0 <= i < entries.len() implies listed(entries).dom().contains(
            (#[trigger] entries[i]).0,
        ) && listed(entries)[entries[i].0] == entries[i].1 by {
            if i < front.len() {
                assert(front[i] == entries[i]);
                assert(bytes_less(entries[i].0, entries[entries.len() - 1].0));
                lemma_bytes_less_asymmetric(entries[i].0, entries[entries.len() - 1].0);
            }
        }
        assert forall|k: Seq<u8>| #[trigger] listed(entries).dom().contains(k) implies exists|
            i: int,
        | 0 <= i < entries.len() && (#[trigger] entries[i]).0 == k by {
            if k == entries.last().0 {
                assert(entries[entries.len() - 1].0 == k);
            } else {
                assert(listed(front).dom().contains(k));
                let i = choose|i: int| 0 <= i < front.len() && (#[trigger] front[i]).0 == k;
                assert(entries[i].0 == k);
            }
        }
    }
}

proof fn lemma_listed_front(entries: Seq<(Seq<u8>, Seq<u8>)>)
    requires
        entries.len() > 0,
        names_ordered(entries),
    ensures
        names_ordered(entries.drop_last()),
        listed(entries.drop_last()) == listed(entries).remove(entries.last().0),
{
    let front = entries.drop_last();
    let last = entries.last();
    assert forall|i: int, j: int| 0 <= i < j < front.len() implies bytes_less(
        (#[trigger] front[i]).0,
        (#[trigger] front[j]).0,
    ) by {
        assert(bytes_less(entries[i].0, entries[j].0));
    }
    lemma_listed(front);
    if listed(front).dom().contains(last.0) {
        let i = choose|i: int| 0 <= i < front.len() && (#[trigger] front[i]).0 == last.0;
        assert(bytes_less(entries[i].0, entries[entries.len() - 1].0));
        lemma_bytes_less_asymmetric(last.0, last.0);
    }
    assert(listed(front) =~= listed(entries).remove(last.0));
}

/// A map has no two listings.
pub proof fn lemma_one_listing(a: Seq<(Seq<u8>, Seq<u8>)>, b: Seq<(Seq<u8>, Seq<u8>)>)
    requires
        names_ordered(a),
        names_ordered(b),
        listed(a) == listed(b),
    ensures
        a == b,
    decreases a.len(),
{
    lemma_listed(a);
    lemma_listed(b);
    if a.len() == 0 {
        if b.len() > 0 {
            assert(listed(b).dom().contains(b[0].0));
        }
        assert(a =~= b);
    } else {
        assert(listed(b).dom().contains(a[0].0));
        let last_a = a[a.len() - 1];
        let last_b = b[b.len() - 1];
        let i = choose|i: int| 0 <= i < b.len() && (#[trigger] b[i]).0 == last_a.0;
        let j = choose|j: int| 0 <= j < a.len() && (#[trigger] a[j]).0 == last_b.0;
        if i < b.len() - 1 {
            assert(bytes_less(b[i].0, b[b.len() - 1].0));
            if j < a.len() - 1 {
                assert(bytes_less(a[j].0, a[a.len() - 1].0));
            }
            lemma_bytes_less_asymmetric(last_a.0, last_b.0);
        }
        assert(last_a == last_b);
        lemma_listed_front(a);
        lemma_listed_front(b);
        lemma_one_listing(a.drop_last(), b.drop_last());
        assert(a =~= a.drop_last().push(last_a));
        assert(b =~= b.drop_last().push(last_b));
    }
}

/// A listing with one more variable in its place.
proof fn lemma_one_more_entry(entries: Seq<(Seq<u8>, Seq<u8>)>, pair: (Seq<u8>, Seq<u8>)) -> (new:
    Seq<(Seq<u8>, Seq<u8>)>)
    requires
        names_ordered(entries),
        !listed(entries).dom().contains(pair.0),
    ensures
        names_ordered(new),
        listed(new) == listed(entries).insert(pair.0, pair.1),
    decreases entries.len(),
{
    lemma_listed(entries);
    if entries.len() == 0 || bytes_less(entries.last().0, pair.0) {
        let new = entries.push(pair);
        assert(new.drop_last() =~= entries);
        assert forall|i: int, j: int| 0 <= i < j < new.len() implies bytes_less(
            (#[trigger] new[i]).0,
            (#[trigger] new[j]).0,
        ) by {
            if j == entries.len() && i < entries.len() - 1 {
                assert(bytes_less(entries[i].0, entries[entries.len() - 1].0));
                lemma_bytes_less_transitive(entries[i].0, entries.last().0, pair.0);
            }
        }
        new
    } else {
        let last = entries.last();
        let front = entries.drop_last();
        lemma_listed_front(entries);
        lemma_listed(front);
        let inner = lemma_one_more_entry(front, pair);
        lemma_listed(inner);
        let new = inner.push(last);
        assert(new.drop_last() =~= inner);
        assert(listed(entries).dom().contains(entries[entries.len() - 1].0));
        lemma_bytes_less_total(last.0, pair.0);
        assert forall|i: int, j: int| 0 <= i < j < new.len() implies bytes_less(
            (#[trigger] new[i]).0,
            (#[trigger] new[j]).0,
        ) by {
            if j < inner.len() {
                assert(bytes_less(inner[i].0, inner[j].0));
            } else {
                let name = inner[i].0;
                assert(listed(inner).dom().contains(name));
                if name != pair.0 {
                    assert(listed(front).dom().contains(name));
                    let k = choose|k: int| 0 <= k < front.len() && (#[trigger] front[k]).0 == name;
                    assert(bytes_less(entries[k].0, entries[entries.len() - 1].0));
                }
            }
        }
        assert(listed(new) =~= listed(entries).insert(pair.0, pair.1));
        new
    }
}

proof fn lemma_some_listing(map: Map<Seq<u8>, Seq<u8>>) -> (entries: Seq<(Seq<u8>, Seq<u8>)>)
    requires
        map.dom().finite(),
    ensures
        names_ordered(entries),
        listed(entries) == map,
    decreases map.dom().len(),
{
    if map.dom().len() == 0 {
        assert(map.dom() =~= Set::empty());
        assert(map =~= Map::empty());
        Seq::empty()
    } else {
        let name = map.dom().choose();
        let rest = lemma_some_listing(map.remove(name));
        assert(map =~= map.remove(name).insert(name, map[name]));
        lemma_one_more_entry(rest, (name, map[name]))
    }
}

/// Every environment has a listing in order of its names.
pub proof fn lemma_listing(map: Map<Seq<u8>, Seq<u8>>)
    requires
        map.dom().finite(),
    ensures
        names_ordered(listing_of(map)),
        listed(listing_of(map)) == map,
{
    let entries = lemma_some_listing(map);
    assert(names_ordered(entries) && listed(entries) == map);
}

impl Environment {
    #[verifier::type_invariant]
    spec fn ordered(&self) -> bool {
        names_ordered(views(self.entries@))
    }

    pub fn new() -> (r: Environment)
        ensures
            r@ == Map::<Seq<u8>, Seq<u8>>::empty(),
    {
        let entries: Vec<(Vec<u8>, Vec<u8>)> = Vec::new();
        assert(views(entries@) =~= Seq::empty());
        Environment { entries }
    }

    /// The entries by name.
    pub fn entries<'a>(&'a self) -> (r: &'a Vec<(Vec<u8>, Vec<u8>)>)
        ensures
            views(r@) == listing_of(self@),
            names_ordered(views(r@)),
            listed(views(r@)) == self@,
    {
        proof {
            use_type_invariant(self);
            lemma_one_listing(views(self.entries@), listing_of(self@));
        }
        &self.entries
    }

    pub fn get<'a>(&'a self, name: &[u8]) -> (r: Option<&'a Vec<u8>>)
        ensures
            match r {
                Some(value) => self@.dom().contains(name@) && self@[name@] == value@,
                None => !self@.dom().contains(name@),
            },
    {
        proof {
            use_type_invariant(self);
            lemma_listed(views(self.entries@));
        }
        let ghost all = views(self.entries@);
        let mut i: usize = 0;
        while i < self.entries.len()
            invariant
                i <= self.entries.len(),
                all == views(self.entries@),
                self@ == listed(all),
                forall|k: int|
                    0 <= k < all.len() ==> listed(all).dom().contains((#[trigger] all[k]).0)
                        && listed(all)[all[k].0] == all[k].1,
                forall|k: int| 0 <= k < i ==> (#[trigger] all[k]).0 != name@,
            decreases self.entries.len() - i,
        {
            assert(all[i as int] == self.entries@[i as int]@);
            if bytes_equal(self.entries[i].0.as_slice(), name) {
                return Some(&self.entries[i].1);
            }
            i += 1;
        }
        None
    }

    /// Sets a variable, whatever it was before.
    pub fn insert(&mut self, name: Vec<u8>, value: Vec<u8>)
        ensures
            final(self)@ == old(self)@.insert(name@, value@),
    {
        proof {
            use_type_invariant(&*self);
        }
        let ghost map = self@;
        let mut entries: Vec<(Vec<u8>, Vec<u8>)> = Vec::new();
        std::mem::swap(&mut entries, &mut self.entries);
        let ghost all = views(entries@);
        let mut k: usize = 0;
        while k < entries.len() && bytes_before(entries[k].0.as_slice(), name.as_slice())
            invariant
                k <= entries.len(),
                all == views(entries@),
                forall|i: int| 0 <= i < k ==> bytes_less((#[trigger] all[i]).0, name@),
            decreases entries.len() - k,
        {
            assert(all[k as int] == entries@[k as int]@);
            k += 1;
        }
        assert(k < entries.len() ==> all[k as int] == entries@[k as int]@);
        let ghost pair = (name@, value@);
        if k < entries.len() && bytes_equal(entries[k].0.as_slice(), name.as_slice()) {
            entries[k] = (name, value);
            proof {
                let new = views(entries@);
                assert(new =~= all.update(k as int, pair));
                assert(names_ordered(new)) by {
                    assert forall|i: int, j: int| 0 <= i < j < new.len() implies bytes_less(
                        (#[trigger] new[i]).0,
                        (#[trigger] new[j]).0,
                    ) by {
                        assert(bytes_less(all[i].0, all[j].0));
                    }
                }
                lemma_listed(all);
                lemma_listed(new);
                assert(listed(new) =~= map.insert(pair.0, pair.1)) by {
                    lemma_same_map(all, new, pair, k as int);
                }
            }
        } else {
            entries.insert(k, (name, value));
            proof {
                let new = views(entries@);
                assert(new =~= all.insert(k as int, pair));
                if k < all.len() {
                    lemma_bytes_less_total(all[k as int].0, pair.0);
                }
                assert(names_ordered(new)) by {
                    assert forall|i: int, j: int| 0 <= i < j < new.len() implies bytes_less(
                        (#[trigger] new[i]).0,
                        (#[trigger] new[j]).0,
                    ) by {
                        if i != k && j != k {
                            let a = if i < k { i } else { i - 1 };
                            let b = if j < k { j } else { j - 1 };
                            assert(new[i] == all[a] && new[j] == all[b]);
                            assert(bytes_less(all[a].0, all[b].0));
                        } else if j == k {
                            assert(new[i] == all[i]);
                        } else {
                            assert(new[j] == all[j - 1]);
                            if j - 1 > k {
                                assert(bytes_less(all[k as int].0, all[j - 1].0));
                                lemma_bytes_less_transitive(pair.0, all[k as int].0, all[j - 1].0);
                            }
                        }
                    }
                }
                lemma_listed(all);
                lemma_listed(new);
                assert(listed(new) =~= map.insert(pair.0, pair.1)) by {
                    lemma_same_map_inserted(all, new, pair, k as int);
                }
            }
        }
        self.entries = entries;
    }
}

impl Clone for Environment {
    fn clone(&self) -> (r: Environment)
        ensures
            r@ == self@,
    {
        proof {
            use_type_invariant(self);
        }
        let ghost all = views(self.entries@);
        let mut entries: Vec<(Vec<u8>, Vec<u8>)> = Vec::new();
        let mut i: usize = 0;
        assert(all.take(0) =~= Seq::empty());
        while i < self.entries.len()
            invariant
                i <= self.entries.len(),
                all == views(self.entries@),
                views(entries@) == all.take(i as int),
            decreases self.entries.len() - i,
        {
            assert(all.take(i + 1) =~= all.take(i as int).push(self.entries@[i as int]@));
            entries.push(
                (
                    copy_bytes(self.entries[i].0.as_slice()),
                    copy_bytes(self.entries[i].1.as_slice()),
                ),
            );
            i += 1;
        }
        assert(all.take(all.len() as int) =~= all);
        Environment { entries }
    }
}

proof fn lemma_same_map(
    all: Seq<(Seq<u8>, Seq<u8>)>,
    new: Seq<(Seq<u8>, Seq<u8>)>,
    pair: (Seq<u8>, Seq<u8>),
    k: int,
)
    requires
        names_ordered(all),
        names_ordered(new),
        0 <= k < all.len(),
        all[k].0 == pair.0,
        new == all.update(k, pair),
    ensures
        listed(new) =~= listed(all).insert(pair.0, pair.1),
{
    lemma_listed(all);
    lemma_listed(new);
    let a = listed(new);
    let b = listed(all).insert(pair.0, pair.1);
    assert forall|x: Seq<u8>| #[trigger] a.dom().contains(x) <==> b.dom().contains(x) by {
        if a.dom().contains(x) {
            let i = choose|i: int| 0 <= i < new.len() && (#[trigger] new[i]).0 == x;
            assert(all[i].0 == x);
        }
        if b.dom().contains(x) && x != pair.0 {
            let i = choose|i: int| 0 <= i < all.len() && (#[trigger] all[i]).0 == x;
            assert(new[i].0 == x);
        }
        assert(new[k].0 == pair.0);
    }
    assert forall|x: Seq<u8>| #[trigger] a.dom().contains(x) implies a[x] == b[x] by {
        let i = choose|i: int| 0 <= i < new.len() && (#[trigger] new[i]).0 == x;
        assert(new[k] == pair);
        if i != k {
            assert(all[i] == new[i]);
            if x == pair.0 {
                if i < k {
                    assert(bytes_less(all[i].0, all[k].0));
                } else {
                    assert(bytes_less(all[k].0, all[i].0));
                }
                lemma_bytes_less_asymmetric(x, x);
            }
        }
    }
}

proof fn lemma_same_map_inserted(
    all: Seq<(Seq<u8>, Seq<u8>)>,
    new: Seq<(Seq<u8>, Seq<u8>)>,
    pair: (Seq<u8>, Seq<u8>),
    k: int,
)
    requires
        names_ordered(all),
        names_ordered(new),
        0 <= k <= all.len(),
        new == all.insert(k, pair),
    ensures
        listed(new) =~= listed(all).insert(pair.0, pair.1),
{
    lemma_listed(all);
    lemma_listed(new);
    let a = listed(new);
    let b = listed(all).insert(pair.0, pair.1);
    assert(new[k] == pair);
    assert forall|x: Seq<u8>| #[trigger] a.dom().contains(x) <==> b.dom().contains(x) by {
        if a.dom().contains(x) {
            let i = choose|i: int| 0 <= i < new.len() && (#[trigger] new[i]).0 == x;
            if i != k {
                let j = if i < k { i } else { i - 1 };
                assert(all[j] == new[i]);
            }
        }
        if b.dom().contains(x) && x != pair.0 {
            let j = choose|j: int| 0 <= j < all.len() && (#[trigger] all[j]).0 == x;
            let i = if j < k { j } else { j + 1 };
            assert(new[i] == all[j]);
        }
    }
    assert forall|x: Seq<u8>| #[trigger] a.dom().contains(x) implies a[x] == b[x] by {
        let i = choose|i: int| 0 <= i < new.len() && (#[trigger] new[i]).0 == x;
        if i != k {
            let j = if i < k { i } else { i - 1 };
            assert(all[j] == new[i]);
            if x == pair.0 {
                if i < k {
                    assert(bytes_less(new[i].0, new[k].0));
                } else {
                    assert(bytes_less(new[k].0, new[i].0));
                }
                lemma_bytes_less_asymmetric(x, x);
            }
        }
    }
}

/// The value of a variable is that of the first entry of its name, and a variable
/// without an entry has none.
pub proof fn law_first_variable_counts(
    vars: Seq<(Seq<u8>, Seq<u8>)>,
    name: Seq<u8>,
    value: Seq<u8>,
)
    ensures
        variable(vars, name) == Some(value) <==> exists|i: int|
            0 <= i < vars.len() && #[trigger] vars[i] == (name, value) && forall|j: int|
                0 <= j < i ==> (#[trigger] vars[j]).0 != name,
        variable(vars, name) is None <==> forall|i: int|
            0 <= i < vars.len() ==> (#[trigger] vars[i]).0 != name,
{
    let k = lemma_first_variable(vars, name, 0);
    if k < vars.len() {
        assert(vars[k].0 == name);
        assert(vars[k] == (name, vars[k].1));
        if exists|i: int|
            0 <= i < vars.len() && #[trigger] vars[i] == (name, value) && forall|j: int|
                0 <= j < i ==> (#[trigger] vars[j]).0 != name {
            let i = choose|i: int|
                0 <= i < vars.len() && #[trigger] vars[i] == (name, value) && forall|j: int|
                    0 <= j < i ==> (#[trigger] vars[j]).0 != name;
            assert(i == k);
        }
    }
}

proof fn lemma_first_variable(vars: Seq<(Seq<u8>, Seq<u8>)>, name: Seq<u8>, i: nat) -> (k: int)
    requires
        i <= vars.len(),
    ensures
        i <= k <= vars.len(),
        forall|j: int| i <= j < k ==> (#[trigger] vars[j]).0 != name,
        k < vars.len() ==> vars[k].0 == name && variable_from(vars, name, i) == Some(vars[k].1),
        k == vars.len() ==> variable_from(vars, name, i) is None,
    decreases vars.len() - i,
{
    if i >= vars.len() {
        vars.len() as int
    } else if vars[i as int].0 == name {
        i as int
    } else {
        lemma_first_variable(vars, name, i + 1)
    }
}

} // verus!
