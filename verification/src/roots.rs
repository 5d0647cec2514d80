//! Lists of paths without repetitions: mount roots, and directories to search.
use vstd::prelude::*;

use crate::path::{
    components, is_under, lemma_path_order_total, lemma_path_order_transitive, path_less, HostPath,
};
use crate::views::views;

verus! {

broadcast use crate::views::group_views;

/// `path` put into `sorted` before the paths that come after it.
pub open spec fn insert_in_order(sorted: Seq<Seq<u8>>, path: Seq<u8>) -> Seq<Seq<u8>>
    decreases sorted.len(),
{
    if sorted.len() > 0 && path_less(path, sorted.last()) {
        insert_in_order(sorted.drop_last(), path).push(sorted.last())
    } else {
        sorted.push(path)
    }
}

/// The same paths, each put in its place.
pub open spec fn in_order(paths: Seq<Seq<u8>>) -> Seq<Seq<u8>>
    decreases paths.len(),
{
    if paths.len() == 0 {
        Seq::empty()
    } else {
        insert_in_order(in_order(paths.drop_last()), paths.last())
    }
}

/// Of a list of mount roots the `i`-th is needed: no root above it is in the
/// list, and no earlier one spells the same path.
pub open spec fn root_needed(paths: Seq<Seq<u8>>, i: int) -> bool {
    forall|j: int|
        0 <= j < paths.len() && j != i && is_under(paths[i], #[trigger] paths[j]) ==> i < j
            && components(paths[j]) == components(paths[i])
}

/// The needed ones among the first `n` roots.
pub open spec fn needed_roots(paths: Seq<Seq<u8>>, n: nat) -> Seq<Seq<u8>>
    decreases n,
{
    if n == 0 {
        Seq::empty()
    } else if root_needed(paths, n - 1) {
        needed_roots(paths, (n - 1) as nat).push(paths[n - 1])
    } else {
        needed_roots(paths, (n - 1) as nat)
    }
}

/// The mount roots that cover `paths`, in order.
pub open spec fn roots(paths: Seq<Seq<u8>>) -> Seq<Seq<u8>> {
    in_order(needed_roots(paths, paths.len()))
}

/// No earlier path of the list spells the same path as the `i`-th.
pub open spec fn first_spelling(paths: Seq<Seq<u8>>, i: int) -> bool {
    forall|j: int| 0 <= j < i ==> components(#[trigger] paths[j]) != components(paths[i])
}

pub open spec fn first_spellings(paths: Seq<Seq<u8>>, n: nat) -> Seq<Seq<u8>>
    decreases n,
{
    if n == 0 {
        Seq::empty()
    } else if first_spelling(paths, n - 1) {
        first_spellings(paths, (n - 1) as nat).push(paths[n - 1])
    } else {
        first_spellings(paths, (n - 1) as nat)
    }
}

/// `paths` in order, each path once, spelled as it came first.
pub open spec fn distinct(paths: Seq<Seq<u8>>) -> Seq<Seq<u8>> {
    in_order(first_spellings(paths, paths.len()))
}

pub open spec fn strictly_ordered(paths: Seq<Seq<u8>>) -> bool {
    forall|i: int, j: int|
        0 <= i < j < paths.len() ==> path_less(#[trigger] paths[i], #[trigger] paths[j])
}

/// No two of the paths spell the same path.
pub open spec fn all_different(paths: Seq<Seq<u8>>) -> bool {
    forall|i: int, j: int|
        0 <= i < j < paths.len() ==> components(#[trigger] paths[i]) != components(
            #[trigger] paths[j],
        )
}

/// No path of the list lies at or below another one of it.
pub open spec fn none_nested(paths: Seq<Seq<u8>>) -> bool {
    forall|i: int, j: int|
        0 <= i < paths.len() && 0 <= j < paths.len() && i != j ==> !is_under(
            #[trigger] paths[i],
            #[trigger] paths[j],
        )
}

proof fn lemma_insert_in_order(sorted: Seq<Seq<u8>>, path: Seq<u8>)
    requires
        strictly_ordered(sorted),
        forall|i: int|
            0 <= i < sorted.len() ==> components(#[trigger] sorted[i]) != components(path),
    ensures
        strictly_ordered(insert_in_order(sorted, path)),
        forall|x: Seq<u8>| #[trigger]
            insert_in_order(sorted, path).contains(x) <==> x == path || sorted.contains(x),
    decreases sorted.len(),
{
    let result = insert_in_order(sorted, path);
    if sorted.len() > 0 && path_less(path, sorted.last()) {
        let front = sorted.drop_last();
        let inner = insert_in_order(front, path);
        lemma_insert_in_order(front, path);
        assert forall|x: Seq<u8>| #[trigger] result.contains(x) <==> x == path || sorted.contains(
            x,
        ) by {
            if result.contains(x) {
                let k = choose|k: int| 0 <= k < result.len() && result[k] == x;
                if k < inner.len() {
                    assert(inner[k] == x);
                    assert(inner.contains(x));
                    if front.contains(x) {
                        let j = choose|j: int| 0 <= j < front.len() && front[j] == x;
                        assert(sorted[j] == x);
                    }
                } else {
                    assert(sorted[sorted.len() - 1] == x);
                }
            }
            if x == path || sorted.contains(x) {
                if x != path {
                    let j = choose|j: int| 0 <= j < sorted.len() && sorted[j] == x;
                    if j < front.len() {
                        assert(front[j] == x);
                    } else {
                        assert(result[result.len() - 1] == x);
                    }
                }
                if x == path || front.contains(x) {
                    assert(inner.contains(x));
                    let k = choose|k: int| 0 <= k < inner.len() && inner[k] == x;
                    assert(result[k] == x);
                }
            }
        }
        assert forall|i: int, j: int| 0 <= i < j < result.len() implies path_less(
            #[trigger] result[i],
            #[trigger] result[j],
        ) by {
            if j < inner.len() {
                assert(result[i] == inner[i] && result[j] == inner[j]);
            } else {
                assert(result[i] == inner[i]);
                assert(inner.contains(inner[i]));
                if inner[i] != path {
                    let k = choose|k: int| 0 <= k < front.len() && front[k] == inner[i];
                    assert(path_less(sorted[k], sorted[sorted.len() - 1]));
                }
            }
        }
    } else {
        assert forall|x: Seq<u8>| #[trigger] result.contains(x) <==> x == path || sorted.contains(
            x,
        ) by {
            assert(result[sorted.len() as int] == path);
            if sorted.contains(x) {
                let j = choose|j: int| 0 <= j < sorted.len() && sorted[j] == x;
                assert(result[j] == x);
            }
        }
        if sorted.len() > 0 {
            lemma_path_order_total(path, sorted.last());
        }
        assert forall|i: int, j: int| 0 <= i < j < result.len() implies path_less(
            #[trigger] result[i],
            #[trigger] result[j],
        ) by {
            if j == sorted.len() && i < sorted.len() - 1 {
                assert(path_less(sorted[i], sorted[sorted.len() - 1]));
                lemma_path_order_transitive(sorted[i], sorted.last(), path);
            }
        }
    }
}

proof fn lemma_in_order(paths: Seq<Seq<u8>>)
    requires
        all_different(paths),
    ensures
        strictly_ordered(in_order(paths)),
        forall|x: Seq<u8>| #[trigger] in_order(paths).contains(x) <==> paths.contains(x),
    decreases paths.len(),
{
    if paths.len() > 0 {
        let front = paths.drop_last();
        lemma_in_order(front);
        let sorted = in_order(front);
        assert forall|i: int| 0 <= i < sorted.len() implies components(#[trigger] sorted[i])
            != components(paths.last()) by {
            assert(sorted.contains(sorted[i]));
            let j = choose|j: int| 0 <= j < front.len() && front[j] == sorted[i];
            assert(components(paths[j]) != components(paths[paths.len() - 1]));
        }
        lemma_insert_in_order(sorted, paths.last());
        assert forall|x: Seq<u8>| #[trigger] in_order(paths).contains(x) <==> paths.contains(x) by {
            if paths.contains(x) {
                let j = choose|j: int| 0 <= j < paths.len() && paths[j] == x;
                if j < front.len() {
                    assert(front[j] == x);
                }
            }
            if front.contains(x) {
                let j = choose|j: int| 0 <= j < front.len() && front[j] == x;
                assert(paths[j] == x);
            }
            assert(paths[paths.len() - 1] == paths.last());
        }
    }
}

/// What is in order already stays as it is.
proof fn lemma_in_order_fixed(paths: Seq<Seq<u8>>)
    requires
        strictly_ordered(paths),
    ensures
        in_order(paths) == paths,
    decreases paths.len(),
{
    if paths.len() > 0 {
        let front = paths.drop_last();
        assert(strictly_ordered(front)) by {
            assert forall|i: int, j: int| 0 <= i < j < front.len() implies path_less(
                #[trigger] front[i],
                #[trigger] front[j],
            ) by {
                assert(path_less(paths[i], paths[j]));
            }
        }
        lemma_in_order_fixed(front);
        if front.len() > 0 {
            assert(path_less(paths[paths.len() - 2], paths[paths.len() - 1]));
            lemma_path_order_total(front.last(), paths.last());
        }
        assert(in_order(paths) =~= paths);
    } else {
        assert(paths =~= Seq::empty());
    }
}

/// The `i`-th of the paths is `p`, and it is needed.
pub open spec fn needed_at(paths: Seq<Seq<u8>>, i: int, p: Seq<u8>) -> bool {
    0 <= i < paths.len() && paths[i] == p && root_needed(paths, i)
}

proof fn lemma_needed_come_from(paths: Seq<Seq<u8>>, n: nat, k: int) -> (i: int)
    requires
        n <= paths.len(),
        0 <= k < needed_roots(paths, n).len(),
    ensures
        0 <= i < n,
        needed_at(paths, i, needed_roots(paths, n)[k]),
    decreases n,
{
    let m = (n - 1) as nat;
    let inner = needed_roots(paths, m);
    if k < inner.len() {
        assert(needed_roots(paths, n)[k] == inner[k]);
        lemma_needed_come_from(paths, m, k)
    } else {
        m as int
    }
}

proof fn lemma_needed_are_kept(paths: Seq<Seq<u8>>, n: nat, i: int) -> (k: int)
    requires
        0 <= i < n <= paths.len(),
        root_needed(paths, i),
    ensures
        0 <= k < needed_roots(paths, n).len(),
        needed_roots(paths, n)[k] == paths[i],
    decreases n,
{
    let m = (n - 1) as nat;
    if i < m {
        lemma_needed_are_kept(paths, m, i)
    } else {
        needed_roots(paths, m).len() as int
    }
}

/// Two needed roots do not nest.
proof fn lemma_needed_apart(paths: Seq<Seq<u8>>, i: int, j: int)
    requires
        0 <= i < paths.len(),
        0 <= j < paths.len(),
        i != j,
        root_needed(paths, i),
        root_needed(paths, j),
    ensures
        !is_under(paths[i], paths[j]),
{
    if is_under(paths[i], paths[j]) {
        assert(i < j && components(paths[j]) == components(paths[i]));
        assert(is_under(paths[j], paths[i]));
    }
}

proof fn lemma_needed_not_nested(paths: Seq<Seq<u8>>, n: nat, a: int, b: int)
    requires
        n <= paths.len(),
        0 <= a < needed_roots(paths, n).len(),
        0 <= b < needed_roots(paths, n).len(),
        a != b,
    ensures
        !is_under(needed_roots(paths, n)[a], needed_roots(paths, n)[b]),
    decreases n,
{
    let m = (n - 1) as nat;
    let inner = needed_roots(paths, m);
    let result = needed_roots(paths, n);
    if a < inner.len() && b < inner.len() {
        assert(result[a] == inner[a] && result[b] == inner[b]);
        lemma_needed_not_nested(paths, m, a, b);
    } else {
        assert(result[inner.len() as int] == paths[m as int]);
        if a < inner.len() {
            assert(result[a] == inner[a]);
            let i = lemma_needed_come_from(paths, m, a);
            lemma_needed_apart(paths, i, m as int);
        } else {
            assert(result[b] == inner[b]);
            let i = lemma_needed_come_from(paths, m, b);
            lemma_needed_apart(paths, m as int, i);
        }
    }
}

/// Every path of a list lies under a needed one.
proof fn lemma_covered(paths: Seq<Seq<u8>>, i: int) -> (k: int)
    requires
        0 <= i < paths.len(),
    ensures
        0 <= k < paths.len(),
        root_needed(paths, k),
        is_under(paths[i], paths[k]),
    decreases components(paths[i]).len(), i,
{
    if root_needed(paths, i) {
        assert(components(paths[i]).subrange(0, components(paths[i]).len() as int) =~= components(
            paths[i],
        ));
        i
    } else {
        let j = choose|j: int|
            0 <= j < paths.len() && j != i && is_under(paths[i], #[trigger] paths[j]) && !(i < j
                && components(paths[j]) == components(paths[i]));
        let a = components(paths[i]);
        let b = components(paths[j]);
        assert(b =~= a.subrange(0, b.len() as int));
        if a.len() == b.len() {
            assert(a =~= b);
        }
        let k = lemma_covered(paths, j);
        let c = components(paths[k]);
        assert(c =~= b.subrange(0, c.len() as int));
        assert(c =~= a.subrange(0, c.len() as int));
        k
    }
}

/// The roots of a list are some of its paths, in path order; none lies below
/// another; and every path of the list lies under one of them.
pub proof fn law_roots_cover(paths: Seq<Seq<u8>>)
    ensures
        strictly_ordered(roots(paths)),
        none_nested(roots(paths)),
        forall|k: int| 0 <= k < roots(paths).len() ==> paths.contains(#[trigger] roots(paths)[k]),
        forall|i: int|
            0 <= i < paths.len() ==> exists|k: int|
                0 <= k < roots(paths).len() && is_under(
                    #[trigger] paths[i],
                    #[trigger] roots(paths)[k],
                ),
{
    let kept = needed_roots(paths, paths.len());
    let result = roots(paths);
    assert(all_different(kept)) by {
        assert forall|i: int, j: int| 0 <= i < j < kept.len() implies components(
            #[trigger] kept[i],
        ) != components(#[trigger] kept[j]) by {
            lemma_needed_not_nested(paths, paths.len(), i, j);
            if components(kept[i]) == components(kept[j]) {
                assert(components(kept[i]).subrange(0, components(kept[i]).len() as int)
                    =~= components(kept[i]));
                assert(is_under(kept[i], kept[j]));
            }
        }
    }
    lemma_in_order(kept);
    assert forall|k: int| 0 <= k < result.len() implies paths.contains(#[trigger] result[k]) by {
        assert(result.contains(result[k]));
        let j = kept.index_of(result[k]);
        let i = lemma_needed_come_from(paths, paths.len(), j);
        assert(paths[i] == result[k]);
    }
    assert forall|a: int, b: int|
        0 <= a < result.len() && 0 <= b < result.len() && a != b implies !is_under(
        #[trigger] result[a],
        #[trigger] result[b],
    ) by {
        assert(result.contains(result[a]) && result.contains(result[b]));
        let i = kept.index_of(result[a]);
        let j = kept.index_of(result[b]);
        if i != j {
            lemma_needed_not_nested(paths, paths.len(), i, j);
        } else {
            if a < b {
                assert(path_less(result[a], result[b]));
            } else {
                assert(path_less(result[b], result[a]));
            }
            lemma_path_order_total(result[a], result[b]);
        }
    }
    assert forall|i: int| 0 <= i < paths.len() implies exists|k: int|
        0 <= k < result.len() && is_under(#[trigger] paths[i], #[trigger] result[k]) by {
        let j = lemma_covered(paths, i);
        let n = lemma_needed_are_kept(paths, paths.len(), j);
        assert(kept.contains(kept[n]));
        assert(result.contains(paths[j]));
        let k = result.index_of(paths[j]);
        assert(is_under(paths[i], result[k]));
    }
}

/// Taking the roots of a list of roots changes nothing.
pub proof fn law_roots_idempotent(paths: Seq<Seq<u8>>)
    ensures
        roots(roots(paths)) == roots(paths),
{
    let r = roots(paths);
    law_roots_cover(paths);
    lemma_all_needed(r, r.len());
    assert(r.take(r.len() as int) =~= r);
    lemma_in_order_fixed(r);
}

proof fn lemma_all_needed(paths: Seq<Seq<u8>>, n: nat)
    requires
        none_nested(paths),
        n <= paths.len(),
    ensures
        needed_roots(paths, n) == paths.take(n as int),
    decreases n,
{
    if n > 0 {
        lemma_all_needed(paths, (n - 1) as nat);
        assert(root_needed(paths, n - 1));
        assert(paths.take(n as int) =~= paths.take(n - 1).push(paths[n - 1]));
    } else {
        assert(paths.take(0) =~= Seq::empty());
    }
}

proof fn lemma_spellings_come_from(paths: Seq<Seq<u8>>, n: nat, k: int) -> (i: int)
    requires
        n <= paths.len(),
        0 <= k < first_spellings(paths, n).len(),
    ensures
        0 <= i < n,
        paths[i] == first_spellings(paths, n)[k],
        first_spelling(paths, i),
    decreases n,
{
    let m = (n - 1) as nat;
    let inner = first_spellings(paths, m);
    if k < inner.len() {
        assert(first_spellings(paths, n)[k] == inner[k]);
        lemma_spellings_come_from(paths, m, k)
    } else {
        m as int
    }
}

proof fn lemma_spellings_cover(paths: Seq<Seq<u8>>, n: nat, i: int) -> (k: int)
    requires
        0 <= i < n <= paths.len(),
    ensures
        0 <= k < first_spellings(paths, n).len(),
        components(first_spellings(paths, n)[k]) == components(paths[i]),
    decreases n,
{
    let m = (n - 1) as nat;
    let inner = first_spellings(paths, m);
    if i < m {
        let k = lemma_spellings_cover(paths, m, i);
        assert(first_spellings(paths, n)[k] == inner[k]);
        k
    } else if first_spelling(paths, m as int) {
        inner.len() as int
    } else {
        let j = choose|j: int|
            0 <= j < m && components(#[trigger] paths[j]) == components(paths[m as int]);
        lemma_spellings_cover(paths, m, j)
    }
}

proof fn lemma_spellings_differ(paths: Seq<Seq<u8>>, n: nat, a: int, b: int)
    requires
        n <= paths.len(),
        0 <= a < b < first_spellings(paths, n).len(),
    ensures
        components(first_spellings(paths, n)[a]) != components(first_spellings(paths, n)[b]),
    decreases n,
{
    let m = (n - 1) as nat;
    let inner = first_spellings(paths, m);
    let result = first_spellings(paths, n);
    assert(result[a] == inner[a]);
    if b < inner.len() {
        assert(result[b] == inner[b]);
        lemma_spellings_differ(paths, m, a, b);
    } else {
        let i = lemma_spellings_come_from(paths, m, a);
        assert(components(paths[i]) != components(paths[m as int]));
    }
}

/// The distinct paths of a list are some of its paths, in path order, and each
/// path of the list is spelled by one of them.
pub proof fn law_distinct_paths(paths: Seq<Seq<u8>>)
    ensures
        strictly_ordered(distinct(paths)),
        forall|k: int|
            0 <= k < distinct(paths).len() ==> paths.contains(#[trigger] distinct(paths)[k]),
        forall|i: int|
            0 <= i < paths.len() ==> exists|k: int|
                0 <= k < distinct(paths).len() && components(#[trigger] paths[i]) == components(
                    #[trigger] distinct(paths)[k],
                ),
{
    let kept = first_spellings(paths, paths.len());
    let result = distinct(paths);
    assert forall|a: int, b: int| 0 <= a < b < kept.len() implies components(
        #[trigger] kept[a],
    ) != components(#[trigger] kept[b]) by {
        lemma_spellings_differ(paths, paths.len(), a, b);
    }
    lemma_in_order(kept);
    assert forall|k: int| 0 <= k < result.len() implies paths.contains(#[trigger] result[k]) by {
        assert(result.contains(result[k]));
        let j = kept.index_of(result[k]);
        let i = lemma_spellings_come_from(paths, paths.len(), j);
        assert(paths[i] == result[k]);
    }
    assert forall|i: int| 0 <= i < paths.len() implies exists|k: int|
        0 <= k < result.len() && components(#[trigger] paths[i]) == components(
            #[trigger] result[k],
        ) by {
        let j = lemma_spellings_cover(paths, paths.len(), i);
        assert(kept.contains(kept[j]));
        assert(result.contains(kept[j]));
        let k = result.index_of(kept[j]);
        assert(components(paths[i]) == components(result[k]));
    }
}

fn insert_path(sorted: &mut Vec<HostPath>, path: HostPath)
    ensures
        views(final(sorted)@) == insert_in_order(views(old(sorted)@), path@),
{
    let ghost all = views(sorted@);
    let mut k: usize = sorted.len();
    assert(all.take(k as int) =~= all);
    assert(all.skip(k as int) =~= Seq::empty());
    assert(insert_in_order(all, path@) =~= insert_in_order(all.take(k as int), path@) + all.skip(
        k as int,
    ));
    while k > 0 && path.before(&sorted[k - 1])
        invariant
            all == views(sorted@),
            k <= sorted.len(),
            insert_in_order(all, path@) == insert_in_order(all.take(k as int), path@) + all.skip(
                k as int,
            ),
        decreases k,
    {
        assert(all.take(k as int).drop_last() =~= all.take(k - 1));
        assert(all.take(k as int).last() == sorted@[k - 1]@);
        assert(insert_in_order(all.take(k as int), path@) + all.skip(k as int) =~= insert_in_order(
            all.take(k - 1),
            path@,
        ) + all.skip(k - 1));
        k -= 1;
    }
    let ghost value = path@;
    sorted.insert(k, path);
    assert(k > 0 ==> all.take(k as int).last() == all[k - 1]);
    assert(views(sorted@) =~= all.take(k as int).push(value) + all.skip(k as int));
}

fn sort_paths(paths: Vec<HostPath>) -> (r: Vec<HostPath>)
    ensures
        views(r@) == in_order(views(paths@)),
{
    let ghost all = views(paths@);
    let mut sorted: Vec<HostPath> = Vec::new();
    let mut i: usize = 0;
    assert(all.take(0) =~= Seq::empty());
    while i < paths.len()
        invariant
            all == views(paths@),
            i <= paths.len(),
            views(sorted@) == in_order(all.take(i as int)),
        decreases paths.len() - i,
    {
        assert(all.take(i + 1).drop_last() =~= all.take(i as int));
        assert(all.take(i + 1).last() == paths@[i as int]@);
        insert_path(&mut sorted, paths[i].copy());
        i += 1;
    }
    assert(all.take(all.len() as int) =~= all);
    sorted
}

fn is_needed(paths: &Vec<HostPath>, i: usize) -> (r: bool)
    requires
        i < paths.len(),
    ensures
        r == root_needed(views(paths@), i as int),
{
    let ghost all = views(paths@);
    let mut j: usize = 0;
    while j < paths.len()
        invariant
            i < paths.len(),
            j <= paths.len(),
            all == views(paths@),
            forall|k: int|
                0 <= k < j && k != i && is_under(all[i as int], #[trigger] all[k]) ==> i < k
                    && components(all[k]) == components(all[i as int]),
        decreases paths.len() - j,
    {
        if j != i && paths[i].starts_with(&paths[j]) && !(i < j && paths[j].same(&paths[i])) {
            assert(is_under(all[i as int], all[j as int]));
            return false;
        }
        j += 1;
    }
    true
}

fn is_first_spelling(paths: &Vec<HostPath>, i: usize) -> (r: bool)
    requires
        i < paths.len(),
    ensures
        r == first_spelling(views(paths@), i as int),
{
    let ghost all = views(paths@);
    let mut j: usize = 0;
    while j < i
        invariant
            j <= i < paths.len(),
            all == views(paths@),
            forall|k: int| 0 <= k < j ==> components(#[trigger] all[k]) != components(all[i as int]),
        decreases i - j,
    {
        if paths[j].same(&paths[i]) {
            assert(components(all[j as int]) == components(all[i as int]));
            return false;
        }
        j += 1;
    }
    true
}

/// The mount roots that cover all of `paths`: none lies below another, each is
/// one of `paths`, and they come in path order.
pub fn dedupe_roots(paths: Vec<HostPath>) -> (r: Vec<HostPath>)
    ensures
        views(r@) == roots(views(paths@)),
{
    let mut kept: Vec<HostPath> = Vec::new();
    let mut i: usize = 0;
    while i < paths.len()
        invariant
            i <= paths.len(),
            views(kept@) == needed_roots(views(paths@), i as nat),
        decreases paths.len() - i,
    {
        if is_needed(&paths, i) {
            kept.push(paths[i].copy());
        }
        i += 1;
    }
    sort_paths(kept)
}

/// Each of `paths` once, in path order, spelled as it came first.
pub fn dedupe_paths(paths: Vec<HostPath>) -> (r: Vec<HostPath>)
    ensures
        views(r@) == distinct(views(paths@)),
{
    let mut kept: Vec<HostPath> = Vec::new();
    let mut i: usize = 0;
    while i < paths.len()
        invariant
            i <= paths.len(),
            views(kept@) == first_spellings(views(paths@), i as nat),
        decreases paths.len() - i,
    {
        if is_first_spelling(&paths, i) {
            kept.push(paths[i].copy());
        }
        i += 1;
    }
    sort_paths(kept)
}

/// Each of the distinct paths of a list is spelled as it came first, and so is each of
/// its roots.
pub proof fn law_first_spelling_is_kept(paths: Seq<Seq<u8>>, p: Seq<u8>)
    ensures
        distinct(paths).contains(p) ==> exists|i: int|
            0 <= i < paths.len() && #[trigger] paths[i] == p && forall|j: int|
                0 <= j < i ==> components(#[trigger] paths[j]) != components(p),
        roots(paths).contains(p) ==> exists|i: int|
            0 <= i < paths.len() && #[trigger] paths[i] == p && forall|j: int|
                0 <= j < i ==> components(#[trigger] paths[j]) != components(p),
{
    let kept = first_spellings(paths, paths.len());
    let needed = needed_roots(paths, paths.len());
    assert forall|a: int, b: int| 0 <= a < b < kept.len() implies components(
        #[trigger] kept[a],
    ) != components(#[trigger] kept[b]) by {
        lemma_spellings_differ(paths, paths.len(), a, b);
    }
    assert forall|a: int, b: int| 0 <= a < b < needed.len() implies components(
        #[trigger] needed[a],
    ) != components(#[trigger] needed[b]) by {
        lemma_needed_not_nested(paths, paths.len(), a, b);
        let parts = components(needed[a]);
        assert(parts.subrange(0, parts.len() as int) =~= parts);
    }
    lemma_in_order(kept);
    lemma_in_order(needed);
    if distinct(paths).contains(p) {
        assert(kept.contains(p));
        let i = lemma_spellings_come_from(paths, paths.len(), kept.index_of(p));
        assert(paths[i] == p);
    }
    if roots(paths).contains(p) {
        assert(needed.contains(p));
        let i = lemma_needed_come_from(paths, paths.len(), needed.index_of(p));
        assert(paths[i] == p);
        assert forall|j: int| 0 <= j < i implies components(#[trigger] paths[j]) != components(
            p,
        ) by {
            if components(paths[j]) == components(p) {
                assert(components(p).subrange(0, components(p).len() as int) =~= components(p));
                assert(is_under(paths[i], paths[j]));
            }
        }
    }
}

} // verus!
