//! The command line of a launch, row by row: what is the same for every launch, the
//! mounts with the directories that are made on the way to them, and how it is closed.
use vstd::prelude::*;
use vstd::string::*;

use crate::bytes::bytes_of;
use crate::cli::{launch, law_launch_holds_what_is_needed, law_launch_parts, runtime_dir};
use crate::command::{
    agent_dir, always_there, base_args, bwrap_command, dir_args, env_args, etc_args, etc_names,
    home_args, home_draft, is_known, isolation_words, launch_roots, lock_args, mount_args,
    mount_draft, mounted_apart, said, same_path, scratch_words, seal_args, start_args, system_words,
    with_first_parents, with_mount, with_parent, with_parents, with_read_only, Draft,
};
use crate::env::{listing_of, variable};
use crate::host::{FactsView, StopView};
use crate::mcp::discovery;
use crate::needs::{
    covered, is_configured, law_runtime_is_provided, law_servers_are_provided, runtime_calls_for,
    server_calls_for,
};
use crate::path::{
    ancestors, components, is_under, join, lemma_parent_shorter, lemma_under_transitive, parent,
    path_less,
};
use crate::roots::{law_roots_cover, none_nested, strictly_ordered};
use crate::servers::ServerView;
use crate::text::decimal;
use crate::types::LaunchView;

verus! {

/// A row of the command: a directory that is made, the home with what overlays it, a
/// path that can be read, or one that can be written as well.
pub enum Row {
    Dir(Seq<u8>),
    Home,
    Read(Seq<u8>),
    Write(Seq<u8>),
}

/// The words of a row.
pub open spec fn row_words(spec: LaunchView, work: Seq<u8>, row: Row) -> Seq<Seq<u8>> {
    let lower = join(spec.home, bytes_of(".omp"@));
    match row {
        Row::Dir(p) => seq![bytes_of("--perms"@), bytes_of("0555"@), bytes_of("--dir"@), p],
        Row::Home => seq![
            bytes_of("--perms"@),
            bytes_of("0555"@),
            bytes_of("--dir"@),
            spec.home,
            bytes_of("--overlay-src"@),
            lower,
            bytes_of("--overlay"@),
            join(spec.state_dir, bytes_of("omp-upper"@)),
            work,
            lower,
        ],
        Row::Read(p) => seq![bytes_of("--ro-bind"@), p, p],
        Row::Write(p) => seq![bytes_of("--bind"@), p, p],
    }
}

/// The words of all rows, one after the other.
pub open spec fn all_words(spec: LaunchView, work: Seq<u8>, rows: Seq<Row>) -> Seq<Seq<u8>>
    decreases rows.len(),
{
    if rows.len() == 0 {
        Seq::empty()
    } else {
        all_words(spec, work, rows.drop_last()) + row_words(spec, work, rows.last())
    }
}

/// The rows that are mounts.
pub open spec fn mounts_of(rows: Seq<Row>) -> Seq<Row>
    decreases rows.len(),
{
    if rows.len() == 0 {
        Seq::empty()
    } else if rows.last() is Dir {
        mounts_of(rows.drop_last())
    } else {
        mounts_of(rows.drop_last()).push(rows.last())
    }
}

/// Where a row puts something.
pub open spec fn place_of(spec: LaunchView, row: Row) -> Seq<u8> {
    match row {
        Row::Dir(p) => p,
        Row::Home => spec.home,
        Row::Read(p) => p,
        Row::Write(p) => p,
    }
}

/// The directory is in every sandbox.
pub open spec fn is_given(p: Seq<u8>) -> bool {
    ||| components(p) == components(bytes_of("/"@))
    ||| components(p) == components(bytes_of("/etc"@))
    ||| is_under(p, bytes_of("/usr"@))
}

/// One of the rows makes the directory.
pub open spec fn is_made(rows: Seq<Row>, p: Seq<u8>) -> bool {
    exists|j: int| 0 <= j < rows.len() && #[trigger] makes(rows[j], p)
}

pub open spec fn makes(row: Row, p: Seq<u8>) -> bool {
    row matches Row::Dir(dir) && components(dir) == components(p)
}

/// Every directory above the place of the `i`-th row is in every sandbox or made by a
/// row before it.
pub open spec fn has_way(spec: LaunchView, rows: Seq<Row>, i: int) -> bool {
    parent(place_of(spec, rows[i])) matches Some(above) ==> forall|k: int|
        0 <= k < ancestors(above).len() ==> is_given(#[trigger] ancestors(above)[k]) || is_made(
            rows.take(i),
            ancestors(above)[k],
        )
}

/// The `i`-th row makes no directory that is in every sandbox, and none that an earlier
/// row made.
pub open spec fn is_new(rows: Seq<Row>, i: int) -> bool {
    rows[i] matches Row::Dir(p) ==> !is_given(p) && !is_made(rows.take(i), p)
}

/// The `i`-th row has its way, and makes nothing that is there.
pub open spec fn fits(spec: LaunchView, rows: Seq<Row>, i: int) -> bool {
    has_way(spec, rows, i) && is_new(rows, i)
}

/// The `i`-th row makes a directory only on the way to the next mount.
pub open spec fn has_use(spec: LaunchView, rows: Seq<Row>, i: int) -> bool {
    rows[i] matches Row::Dir(p) ==> exists|j: int|
        i < j < rows.len() && !(#[trigger] rows[j] is Dir) && (forall|k: int|
            i <= k < j ==> #[trigger] rows[k] is Dir) && (parent(
            place_of(spec, rows[j]),
        ) matches Some(above) && ancestors(above).contains(p))
}

spec fn agrees(seen: Seq<Seq<u8>>, rows: Seq<Row>) -> bool {
    forall|p: Seq<u8>| #[trigger] is_known(seen, p) <==> is_made(rows, p)
}

proof fn lemma_given(p: Seq<u8>)
    ensures
        is_given(p) <==> always_there(p),
{
}

proof fn lemma_words_on(spec: LaunchView, work: Seq<u8>, a: Seq<Row>, b: Seq<Row>)
    ensures
        all_words(spec, work, a + b) == all_words(spec, work, a) + all_words(spec, work, b),
    decreases b.len(),
{
    if b.len() == 0 {
        assert(a + b =~= a);
        assert(all_words(spec, work, a) + Seq::<Seq<u8>>::empty() =~= all_words(spec, work, a));
    } else {
        assert((a + b).drop_last() =~= a + b.drop_last());
        assert((a + b).last() == b.last());
        lemma_words_on(spec, work, a, b.drop_last());
        let front = all_words(spec, work, b.drop_last());
        let last = row_words(spec, work, b.last());
        assert((all_words(spec, work, a) + front) + last =~= all_words(spec, work, a) + (front
            + last));
    }
}

proof fn lemma_mounts_on(a: Seq<Row>, b: Seq<Row>)
    requires
        forall|i: int| 0 <= i < b.len() ==> #[trigger] b[i] is Dir,
    ensures
        mounts_of(a + b) == mounts_of(a),
    decreases b.len(),
{
    if b.len() == 0 {
        assert(a + b =~= a);
    } else {
        assert((a + b).drop_last() =~= a + b.drop_last());
        assert((a + b).last() == b[b.len() - 1]);
        assert forall|i: int| 0 <= i < b.drop_last().len() implies #[trigger] b.drop_last()[i] is Dir by {
            assert(b[i] is Dir);
        }
        lemma_mounts_on(a, b.drop_last());
    }
}

proof fn lemma_made_on(rows: Seq<Row>, more: Seq<Row>)
    ensures
        forall|p: Seq<u8>| is_made(rows, p) ==> #[trigger] is_made(rows + more, p),
{
    assert forall|p: Seq<u8>| is_made(rows, p) implies #[trigger] is_made(rows + more, p) by {
        let j = choose|j: int| 0 <= j < rows.len() && #[trigger] makes(rows[j], p);
        assert(makes((rows + more)[j], p));
    }
}

proof fn lemma_dir_words(spec: LaunchView, work: Seq<u8>, p: Seq<u8>)
    ensures
        dir_args(p) == row_words(spec, work, Row::Dir(p)),
{
    assert(dir_args(p) =~= row_words(spec, work, Row::Dir(p)));
}

proof fn lemma_mount_words(spec: LaunchView, work: Seq<u8>, p: Seq<u8>)
    ensures
        mount_args("--ro-bind"@, p) == row_words(spec, work, Row::Read(p)),
        mount_args("--bind"@, p) == row_words(spec, work, Row::Write(p)),
{
    assert(mount_args("--ro-bind"@, p) =~= row_words(spec, work, Row::Read(p)));
    assert(mount_args("--bind"@, p) =~= row_words(spec, work, Row::Write(p)));
}

proof fn lemma_one_more_dir(seen: Seq<Seq<u8>>, rows: Seq<Row>, p: Seq<u8>)
    requires
        agrees(seen, rows),
    ensures
        agrees(seen.push(p), rows.push(Row::Dir(p))),
{
    let more = rows.push(Row::Dir(p));
    assert forall|q: Seq<u8>| #[trigger] is_known(seen.push(p), q) <==> is_made(more, q) by {
        if is_known(seen.push(p), q) {
            let i = choose|i: int|
                0 <= i < seen.push(p).len() && same_path(#[trigger] seen.push(p)[i], q);
            if i < seen.len() {
                assert(same_path(seen[i], q));
                assert(is_known(seen, q));
                let j = choose|j: int| 0 <= j < rows.len() && #[trigger] makes(rows[j], q);
                assert(makes(more[j], q));
            } else {
                assert(makes(more[rows.len() as int], q));
            }
        }
        if is_made(more, q) {
            let j = choose|j: int| 0 <= j < more.len() && #[trigger] makes(more[j], q);
            if j < rows.len() {
                assert(makes(rows[j], q));
                assert(is_known(seen, q));
                let i = choose|i: int| 0 <= i < seen.len() && same_path(#[trigger] seen[i], q);
                assert(same_path(seen.push(p)[i], q));
            } else {
                assert(same_path(seen.push(p)[seen.len() as int], q));
            }
        }
    }
}

proof fn lemma_above(p: Seq<u8>, i: int)
    requires
        0 <= i < ancestors(p).len(),
    ensures
        ancestors(ancestors(p)[i]) == ancestors(p).skip(i),
    decreases p.len(),
{
    if i == 0 {
        assert(ancestors(p)[0] == p);
        assert(ancestors(p).skip(0) =~= ancestors(p));
    } else {
        let above = parent(p)->0;
        lemma_parent_shorter(p);
        lemma_above(above, i - 1);
        assert(ancestors(p)[i] == ancestors(above)[i - 1]);
        assert(ancestors(above).skip(i - 1) =~= ancestors(p).skip(i));
    }
}

proof fn lemma_way_above(p: Seq<u8>, i: int, k: int)
    requires
        0 <= i < ancestors(p).len(),
        parent(ancestors(p)[i]) is Some,
        0 <= k < ancestors(parent(ancestors(p)[i])->0).len(),
    ensures
        i + 1 + k < ancestors(p).len(),
        ancestors(parent(ancestors(p)[i])->0)[k] == ancestors(p)[i + 1 + k],
{
    let here = ancestors(p)[i];
    lemma_above(p, i);
    assert(ancestors(here) == seq![here] + ancestors(parent(here)->0));
    assert(ancestors(here)[k + 1] == ancestors(parent(here)->0)[k]);
    assert(ancestors(p).skip(i)[k + 1] == ancestors(p)[i + 1 + k]);
}

/// What the rows from the `from`-th on keep to.
spec fn in_order(spec: LaunchView, rows: Seq<Row>, from: int) -> bool {
    forall|i: int|
        from <= i < rows.len() ==> #[trigger] fits(spec, rows, i)
}

proof fn lemma_in_order_on(spec: LaunchView, rows: Seq<Row>, more: Seq<Row>)
    requires
        in_order(spec, rows, 0),
        in_order(spec, rows + more, rows.len() as int),
    ensures
        in_order(spec, rows + more, 0),
{
    let all = rows + more;
    assert forall|i: int| 0 <= i < all.len() implies #[trigger] fits(spec, all, i) by {
        if i < rows.len() {
            assert(fits(spec, rows, i));
            assert(all.take(i) =~= rows.take(i));
            assert(all[i] == rows[i]);
        } else {
            assert(fits(spec, rows + more, i));
        }
    }
    assert(in_order(spec, all, 0));
}

/// The directories on the way to a mount.
#[verifier::spinoff_prover]
#[verifier::rlimit(40)]
proof fn lemma_way(
    spec: LaunchView,
    work: Seq<u8>,
    draft: Draft,
    rows: Seq<Row>,
    p: Seq<u8>,
    n: nat,
) -> (more: Seq<Row>)
    requires
        n <= ancestors(p).len(),
        agrees(draft.seen, rows),
        forall|k: int|
            n <= k < ancestors(p).len() ==> is_given(#[trigger] ancestors(p)[k]) || is_made(
                rows,
                ancestors(p)[k],
            ),
    ensures
        with_first_parents(draft, ancestors(p), n).args == draft.args + all_words(
            spec,
            work,
            more,
        ),
        agrees(with_first_parents(draft, ancestors(p), n).seen, rows + more),
        forall|i: int|
            0 <= i < more.len() ==> (#[trigger] more[i] matches Row::Dir(d) && ancestors(
                p,
            ).contains(d)),
        in_order(spec, rows + more, rows.len() as int),
        forall|k: int|
            0 <= k < ancestors(p).len() ==> is_given(#[trigger] ancestors(p)[k]) || is_made(
                rows + more,
                ancestors(p)[k],
            ),
    decreases n,
{
    let tree = ancestors(p);
    if n == 0 {
        let none = Seq::<Row>::empty();
        assert(rows + none =~= rows);
        assert(draft.args + all_words(spec, work, none) =~= draft.args);
        none
    } else {
        let dir = tree[n - 1];
        let m = (n - 1) as nat;
        let first = with_parent(draft, dir);
        lemma_given(dir);
        if always_there(dir) || is_known(draft.seen, dir) {
            assert forall|k: int| m <= k < tree.len() implies is_given(#[trigger] tree[k])
                || is_made(rows, tree[k]) by {}
            lemma_way(spec, work, draft, rows, p, m)
        } else {
            let made = rows.push(Row::Dir(dir));
            lemma_one_more_dir(draft.seen, rows, dir);
            lemma_made_on(rows, seq![Row::Dir(dir)]);
            assert(rows + seq![Row::Dir(dir)] =~= made);
            assert(makes(made[rows.len() as int], dir));
            assert(is_made(made, dir));
            assert forall|k: int| m <= k < tree.len() implies is_given(#[trigger] tree[k])
                || is_made(made, tree[k]) by {
                if k >= n {
                    assert(is_given(tree[k]) || is_made(rows, tree[k]));
                }
            }
            let rest = lemma_way(spec, work, first, made, p, m);
            let more = seq![Row::Dir(dir)] + rest;
            assert(made + rest =~= rows + more);
            lemma_words_on(spec, work, seq![Row::Dir(dir)], rest);
            lemma_dir_words(spec, work, dir);
            assert(seq![Row::Dir(dir)].drop_last() =~= Seq::empty());
            assert(all_words(spec, work, seq![Row::Dir(dir)]) =~= dir_args(dir)) by {
                reveal_with_fuel(all_words, 2);
            }
            assert(draft.args + (dir_args(dir) + all_words(spec, work, rest)) =~= (draft.args
                + dir_args(dir)) + all_words(spec, work, rest));
            let all = rows + more;
            let at = rows.len() as int;
            assert(all.take(at) =~= rows);
            assert(all[at] == Row::Dir(dir));
            assert(is_new(all, at)) by {
                assert(!is_known(draft.seen, dir));
            }
            assert(has_way(spec, all, at)) by {
                if let Some(above) = parent(dir) {
                    assert forall|k: int| 0 <= k < ancestors(above).len() implies is_given(
                        #[trigger] ancestors(above)[k],
                    ) || is_made(all.take(at), ancestors(above)[k]) by {
                        lemma_way_above(p, n - 1, k);
                        assert(is_given(tree[n + k]) || is_made(rows, tree[n + k]));
                    }
                }
            }
            assert forall|i: int| at <= i < all.len() implies #[trigger] fits(spec, all, i) by {
                if i > at {
                    assert(fits(spec, made + rest, i));
                }
            }
            assert forall|i: int| 0 <= i < more.len() implies (#[trigger] more[i] matches Row::Dir(
                d,
            ) && tree.contains(d)) by {
                if i > 0 {
                    assert(rest[i - 1] is Dir);
                }
            }
            more
        }
    }
}

/// A mount, with the directories on the way to it.
#[verifier::spinoff_prover]
#[verifier::rlimit(40)]
proof fn lemma_mounted(
    spec: LaunchView,
    work: Seq<u8>,
    draft: Draft,
    rows: Seq<Row>,
    row: Row,
) -> (next: Seq<Row>)
    requires
        !(row is Dir),
        agrees(draft.seen, rows),
        in_order(spec, rows, 0),
        forall|i: int| 0 <= i < rows.len() ==> #[trigger] has_use(spec, rows, i),
    ensures
        with_parents(draft, place_of(spec, row)).args + row_words(spec, work, row) == draft.args
            + all_words(spec, work, next.skip(rows.len() as int)),
        rows.is_prefix_of(next),
        agrees(with_parents(draft, place_of(spec, row)).seen, next),
        in_order(spec, next, 0),
        forall|i: int| 0 <= i < next.len() ==> #[trigger] has_use(spec, next, i),
        mounts_of(next) == mounts_of(rows).push(row),
{
    let p = place_of(spec, row);
    let more = match parent(p) {
        None => Seq::<Row>::empty(),
        Some(above) => lemma_way(spec, work, draft, rows, above, ancestors(above).len()),
    };
    let made = rows + more;
    let next = made.push(row);
    let after = with_parents(draft, p);
    if parent(p) is None {
        assert(made =~= rows);
        assert(draft.args + all_words(spec, work, more) =~= draft.args);
    }
    assert(after.args == draft.args + all_words(spec, work, more));
    assert(agrees(after.seen, made));
    lemma_in_order_on(spec, rows, more);
    assert(next.skip(rows.len() as int) =~= more.push(row));
    assert(more.push(row).drop_last() =~= more);
    assert((draft.args + all_words(spec, work, more)) + row_words(spec, work, row) =~= draft.args
        + (all_words(spec, work, more) + row_words(spec, work, row)));
    assert(rows =~= next.subrange(0, rows.len() as int));
    assert forall|q: Seq<u8>| #[trigger] is_known(after.seen, q) <==> is_made(next, q) by {
        if is_known(after.seen, q) {
            let j = choose|j: int| 0 <= j < made.len() && #[trigger] makes(made[j], q);
            assert(makes(next[j], q));
        }
        if is_made(next, q) {
            let j = choose|j: int| 0 <= j < next.len() && #[trigger] makes(next[j], q);
            assert(j < made.len());
            assert(makes(made[j], q));
        }
    }
    let at = made.len() as int;
    assert(next.take(at) =~= made);
    assert(in_order(spec, made + seq![row], at)) by {
        assert(made + seq![row] =~= next);
        assert(fits(spec, next, at));
    }
    lemma_in_order_on(spec, made, seq![row]);
    assert(made + seq![row] =~= next);
    assert forall|i: int| 0 <= i < next.len() implies #[trigger] has_use(spec, next, i) by {
        if i < rows.len() {
            assert(has_use(spec, rows, i));
            if let Row::Dir(d) = rows[i] {
                let j = choose|j: int|
                    i < j < rows.len() && !(#[trigger] rows[j] is Dir) && (forall|k: int|
                        i <= k < j ==> #[trigger] rows[k] is Dir) && (parent(
                        place_of(spec, rows[j]),
                    ) matches Some(above) && ancestors(above).contains(d));
                assert(next[j] == rows[j]);
                assert forall|k: int| i <= k < j implies #[trigger] next[k] is Dir by {
                    assert(rows[k] is Dir);
                }
            }
        } else if i < at {
            assert(next[i] == more[i - rows.len()]);
            assert(next[at] == row);
            assert forall|k: int| i <= k < at implies #[trigger] next[k] is Dir by {
                assert(more[k - rows.len()] is Dir);
            }
        }
    }
    assert forall|i: int| 0 <= i < more.len() implies #[trigger] more[i] is Dir by {}
    lemma_mounts_on(rows, more);
    assert(next.drop_last() =~= made);
    next
}

/// The rows of the paths that can be read.
pub open spec fn reads(paths: Seq<Seq<u8>>) -> Seq<Row> {
    paths.map_values(|p: Seq<u8>| Row::Read(p))
}

spec fn read_paths(paths: Seq<Seq<u8>>, project: Seq<u8>, n: nat) -> Seq<Seq<u8>>
    decreases n,
{
    if n == 0 {
        Seq::empty()
    } else if mounted_apart(paths[n - 1], project) {
        read_paths(paths, project, (n - 1) as nat)
    } else {
        read_paths(paths, project, (n - 1) as nat).push(paths[n - 1])
    }
}

/// One path stands before another among the first `n` paths.
spec fn come_in_order(paths: Seq<Seq<u8>>, n: int, p: Seq<u8>, q: Seq<u8>) -> bool {
    exists|a: int, b: int|
        0 <= a < b < n && p == #[trigger] paths[a] && q == #[trigger] paths[b]
}

proof fn lemma_read_paths(paths: Seq<Seq<u8>>, project: Seq<u8>, n: nat)
    requires
        n <= paths.len(),
    ensures
        forall|p: Seq<u8>| #[trigger]
            read_paths(paths, project, n).contains(p) <==> !mounted_apart(p, project)
                && paths.take(n as int).contains(p),
        forall|i: int, j: int|
            #![trigger read_paths(paths, project, n)[i], read_paths(paths, project, n)[j]]
            0 <= i < j < read_paths(paths, project, n).len() ==> come_in_order(
                paths,
                n as int,
                read_paths(paths, project, n)[i],
                read_paths(paths, project, n)[j],
            ),
    decreases n,
{
    if n > 0 {
        let m = (n - 1) as nat;
        let front = read_paths(paths, project, m);
        let all = read_paths(paths, project, n);
        lemma_read_paths(paths, project, m);
        let last = paths[n - 1];
        assert(paths.take(n as int) =~= paths.take(m as int).push(last));
        assert forall|p: Seq<u8>| #[trigger] all.contains(p) <==> !mounted_apart(p, project)
            && paths.take(n as int).contains(p) by {
            let some = paths.take(m as int);
            if paths.take(n as int).contains(p) {
                let k = paths.take(n as int).index_of(p);
                if k < m {
                    assert(some[k] == p);
                }
            }
            if some.contains(p) {
                assert(paths.take(n as int)[some.index_of(p)] == p);
            }
            assert(paths.take(n as int)[m as int] == last);
            if !mounted_apart(last, project) {
                if all.contains(p) {
                    let k = all.index_of(p);
                    if k < front.len() {
                        assert(front[k] == p);
                    }
                }
                if front.contains(p) {
                    assert(all[front.index_of(p)] == p);
                }
                assert(all[front.len() as int] == last);
            }
        }
        assert forall|i: int, j: int|
            #![trigger all[i], all[j]]
            0 <= i < j < all.len() implies come_in_order(paths, n as int, all[i], all[j]) by {
            if j < front.len() {
                assert(front[i] == all[i] && front[j] == all[j]);
                assert(come_in_order(paths, m as int, front[i], front[j]));
                let (a, b) = choose|a: int, b: int|
                    0 <= a < b < m && front[i] == #[trigger] paths[a] && front[j]
                        == #[trigger] paths[b];
                assert(all[i] == paths[a] && all[j] == paths[b]);
            } else {
                assert(front.contains(front[i]));
                let some = paths.take(m as int);
                let a = some.index_of(front[i]);
                assert(all[i] == paths[a] && all[j] == paths[n - 1]);
            }
        }
    }
}

proof fn lemma_reads(
    spec: LaunchView,
    work: Seq<u8>,
    draft: Draft,
    rows: Seq<Row>,
    paths: Seq<Seq<u8>>,
    n: nat,
) -> (next: Seq<Row>)
    requires
        n <= paths.len(),
        agrees(draft.seen, rows),
        in_order(spec, rows, 0),
        forall|i: int| 0 <= i < rows.len() ==> #[trigger] has_use(spec, rows, i),
    ensures
        with_read_only(draft, paths, spec.project, n).args == draft.args + all_words(
            spec,
            work,
            next.skip(rows.len() as int),
        ),
        rows.is_prefix_of(next),
        agrees(with_read_only(draft, paths, spec.project, n).seen, next),
        in_order(spec, next, 0),
        forall|i: int| 0 <= i < next.len() ==> #[trigger] has_use(spec, next, i),
        mounts_of(next) == mounts_of(rows) + reads(read_paths(paths, spec.project, n)),
    decreases n,
{
    if n == 0 {
        assert(rows.skip(rows.len() as int) =~= Seq::empty());
        assert(draft.args + Seq::<Seq<u8>>::empty() =~= draft.args);
        assert(mounts_of(rows) + reads(Seq::empty()) =~= mounts_of(rows));
        assert(rows =~= rows.subrange(0, rows.len() as int));
        rows
    } else {
        let m = (n - 1) as nat;
        let before = with_read_only(draft, paths, spec.project, m);
        let front = lemma_reads(spec, work, draft, rows, paths, m);
        let p = paths[n - 1];
        if mounted_apart(p, spec.project) {
            front
        } else {
            let next = lemma_mounted(spec, work, before, front, Row::Read(p));
            lemma_mount_words(spec, work, p);
            lemma_rows_joined(spec, work, rows, front, next);
            let kept = read_paths(paths, spec.project, m);
            assert(reads(kept.push(p)) =~= reads(kept).push(Row::Read(p)));
            assert((mounts_of(rows) + reads(kept)).push(Row::Read(p)) =~= mounts_of(rows) + reads(
                kept,
            ).push(Row::Read(p)));
            assert(draft.args + all_words(spec, work, front.skip(rows.len() as int)) + all_words(
                spec,
                work,
                next.skip(front.len() as int),
            ) =~= draft.args + (all_words(spec, work, front.skip(rows.len() as int)) + all_words(
                spec,
                work,
                next.skip(front.len() as int),
            )));
            next
        }
    }
}

proof fn lemma_rows_joined(
    spec: LaunchView,
    work: Seq<u8>,
    a: Seq<Row>,
    b: Seq<Row>,
    c: Seq<Row>,
)
    requires
        a.is_prefix_of(b),
        b.is_prefix_of(c),
    ensures
        a.is_prefix_of(c),
        all_words(spec, work, c.skip(a.len() as int)) == all_words(
            spec,
            work,
            b.skip(a.len() as int),
        ) + all_words(spec, work, c.skip(b.len() as int)),
{
    assert forall|i: int| 0 <= i < a.len() implies a[i] == c[i] by {
        assert(b.subrange(0, a.len() as int)[i] == b[i]);
        assert(c.subrange(0, b.len() as int)[i] == c[i]);
    }
    assert(a =~= c.subrange(0, a.len() as int));
    lemma_words_on(spec, work, b.skip(a.len() as int), c.skip(b.len() as int));
    assert(b.skip(a.len() as int) + c.skip(b.len() as int) =~= c.skip(a.len() as int)) by {
        assert forall|i: int| 0 <= i < b.len() implies b[i] == c[i] by {
            assert(c.subrange(0, b.len() as int)[i] == c[i]);
        }
    }
}

/// The rows of a launch are in order: the home comes first, then what can be read, in
/// path order and none below another, then the agent directory and the project, which
/// can be written. Every directory on the way to a mount is made before it, once, and
/// for no other reason. What can be read was wanted, is not the project's and is not
/// the system's, and everything that was wanted lies in what can be read, in the
/// project or in the system.
pub open spec fn well_laid(spec: LaunchView, rows: Seq<Row>, paths: Seq<Seq<u8>>) -> bool {
    &&& mounts_of(rows) == seq![Row::Home] + reads(paths) + seq![
        Row::Write(join(spec.home, bytes_of(".omp/agent"@))),
        Row::Write(spec.project),
    ]
    &&& forall|i: int| 0 <= i < rows.len() ==> #[trigger] fits(spec, rows, i)
    &&& forall|i: int| 0 <= i < rows.len() ==> #[trigger] has_use(spec, rows, i)
    &&& forall|p: Seq<u8>| #[trigger]
        paths.contains(p) ==> (spec.read_only.contains(p) || spec.omp.mount_roots.contains(p))
            && !is_under(p, spec.project) && components(p) != components(bytes_of("/usr"@))
    &&& forall|p: Seq<u8>|
        spec.read_only.contains(p) || spec.omp.mount_roots.contains(p) ==> is_under(p, spec.project)
            || is_under(p, bytes_of("/usr"@)) || #[trigger] is_below(paths, p)
    &&& none_nested(paths)
    &&& strictly_ordered(paths)
}

/// The path lies below one of the paths.
pub open spec fn is_below(paths: Seq<Seq<u8>>, p: Seq<u8>) -> bool {
    exists|k: int| 0 <= k < paths.len() && is_under(p, #[trigger] paths[k])
}

/// The words that close the sandbox: the state that the project keeps is hidden, the
/// root is closed to writing and the environment is cleared.
#[verifier::opaque]
pub open spec fn closing_words(spec: LaunchView) -> Seq<Seq<u8>> {
    let hidden = join(spec.project, bytes_of(".sbox"@));
    seq![
        bytes_of("--perms"@),
        bytes_of("0700"@),
        bytes_of("--tmpfs"@),
        hidden,
        bytes_of("--remount-ro"@),
        hidden,
        bytes_of("--remount-ro"@),
        bytes_of("/"@),
        bytes_of("--clearenv"@),
    ]
}

/// The namespaces of a sandbox, and the start of a mount.
pub open spec fn first_words() -> Seq<Seq<u8>> {
    said(
        seq![
            "--unshare-user"@,
            "--unshare-all"@,
            "--share-net"@,
            "--disable-userns"@,
            "--die-with-parent"@,
            "--bind"@,
        ],
    )
}

/// The lock is put in its place, taken and closed to writing.
pub open spec fn lock_words(state_dir: Seq<u8>) -> Seq<Seq<u8>> {
    let lock = bytes_of("/.sbox-omp.lock"@);
    seq![
        join(state_dir, bytes_of("omp.lock"@)),
        lock,
        bytes_of("--lock-file"@),
        lock,
        bytes_of("--remount-ro"@),
        lock,
    ]
}

/// Fresh kernel, device and scratch directories, the last of them about to be named.
pub open spec fn fresh_words() -> Seq<Seq<u8>> {
    said(
        seq![
            "--proc"@,
            "/proc"@,
            "--dev"@,
            "/dev"@,
            "--perms"@,
            "1777"@,
            "--tmpfs"@,
            "/tmp"@,
            "--perms"@,
            "1777"@,
            "--tmpfs"@,
            "/var/tmp"@,
            "--perms"@,
            "0555"@,
            "--dir"@,
            "/run"@,
            "--perms"@,
            "0555"@,
            "--dir"@,
            "/run/user"@,
            "--perms"@,
            "0700"@,
            "--tmpfs"@,
        ],
    )
}

/// The system's programs and libraries, and a place for its settings.
pub open spec fn program_words() -> Seq<Seq<u8>> {
    said(
        seq![
            "--ro-bind"@,
            "/usr"@,
            "/usr"@,
            "--symlink"@,
            "usr/bin"@,
            "/bin"@,
            "--symlink"@,
            "usr/sbin"@,
            "/sbin"@,
            "--symlink"@,
            "usr/lib"@,
            "/lib"@,
            "--symlink"@,
            "usr/lib64"@,
            "/lib64"@,
            "--perms"@,
            "0555"@,
            "--dir"@,
            "/etc"@,
        ],
    )
}

/// What a command line starts with: the namespaces, the lock, fresh directories with
/// that of the user, and the system's programs.
#[verifier::opaque]
pub open spec fn opening_words(spec: LaunchView) -> Seq<Seq<u8>> {
    first_words() + lock_words(spec.state_dir) + fresh_words() + seq![
        bytes_of("/run/user/"@) + decimal(spec.uid as nat),
    ] + program_words()
}

/// The settings of the host that a sandbox sees, if the host has them.
#[verifier::opaque]
pub open spec fn settings() -> Seq<Seq<char>> {
    seq![
        "passwd"@,
        "group"@,
        "nsswitch.conf"@,
        "resolv.conf"@,
        "hosts"@,
        "gai.conf"@,
        "localtime"@,
        "ld.so.cache"@,
        "ld.so.conf"@,
        "ld.so.conf.d"@,
        "pki"@,
        "ssl"@,
        "alternatives"@,
        "crypto-policies"@,
    ]
}

proof fn lemma_etc(names: Seq<Seq<char>>, n: nat)
    requires
        n <= names.len(),
    ensures
        etc_args(names, n).len() == 3 * n,
        forall|i: int|
            0 <= i < n ==> etc_args(names, n).subrange(3 * i, 3 * i + 3) == shown(#[trigger] names[i]),
    decreases n,
{
    if n > 0 {
        let m = (n - 1) as nat;
        lemma_etc(names, m);
        let front = etc_args(names, m);
        let all = etc_args(names, n);
        assert(said(seq!["--ro-bind-try"@]) =~= seq![bytes_of("--ro-bind-try"@)]);
        assert(all =~= front + shown(names[n - 1]));
        assert forall|i: int| 0 <= i < n implies all.subrange(3 * i, 3 * i + 3) == shown(
            #[trigger] names[i],
        ) by {
            if i < m {
                assert(all.subrange(3 * i, 3 * i + 3) =~= front.subrange(3 * i, 3 * i + 3));
            } else {
                assert(all.subrange(3 * i, 3 * i + 3) =~= shown(names[i]));
            }
        }
    }
}

/// The words that show a setting.
pub open spec fn shown(name: Seq<char>) -> Seq<Seq<u8>> {
    let file = join(bytes_of("/etc"@), bytes_of(name));
    seq![bytes_of("--ro-bind-try"@), file, file]
}

proof fn lemma_lock(state_dir: Seq<u8>)
    ensures
        said(isolation_words()) + lock_args(state_dir) == first_words() + lock_words(state_dir),
        first_words().len() == 6,
        lock_words(state_dir).len() == 6,
{
    assert(said(isolation_words()) + lock_args(state_dir) =~= first_words() + lock_words(
        state_dir,
    ));
}

proof fn lemma_opening(spec: LaunchView)
    ensures
        base_args(spec.state_dir, spec.uid) == opening_words(spec) + etc_args(
            settings(),
            settings().len(),
        ),
        opening_words(spec).len() == 55,
        settings().len() == 14,
{
    reveal(opening_words);
    reveal(settings);
    assert(settings() =~= etc_names());
    lemma_lock(spec.state_dir);
    assert(fresh_words() =~= said(scratch_words()));
    assert(program_words() =~= said(system_words()));
    let a = first_words() + lock_words(spec.state_dir);
    let b = said(scratch_words());
    let c = runtime_dir(spec.uid);
    assert(b.push(c) =~= b + seq![c]);
    assert(a + (b + seq![c]) =~= a + b + seq![c]);
    assert(b.len() == 23);
    assert(program_words().len() == 19);
}

spec fn laid(spec: LaunchView, rows: Seq<Row>) -> bool {
    &&& in_order(spec, rows, 0)
    &&& forall|i: int| 0 <= i < rows.len() ==> #[trigger] has_use(spec, rows, i)
}

proof fn lemma_home_rows(spec: LaunchView, work: Seq<u8>) -> (rows: Seq<Row>)
    ensures
        home_draft(spec, work).args == base_args(spec.state_dir, spec.uid) + all_words(
            spec,
            work,
            rows,
        ),
        agrees(home_draft(spec, work).seen, rows),
        laid(spec, rows),
        mounts_of(rows) == seq![Row::Home],
{
    let none = Seq::<Row>::empty();
    let start = Draft { args: base_args(spec.state_dir, spec.uid), seen: Seq::empty() };
    assert(agrees(start.seen, none));
    let rows = lemma_mounted(spec, work, start, none, Row::Home);
    assert(home_args(spec.home, spec.state_dir, work) =~= row_words(spec, work, Row::Home));
    assert(rows.skip(0) =~= rows);
    assert(mounts_of(none).push(Row::Home) =~= seq![Row::Home]);
    rows
}

/// One more mount behind the rows of a draft.
proof fn lemma_written(
    spec: LaunchView,
    work: Seq<u8>,
    draft: Draft,
    rows: Seq<Row>,
    base: Seq<Seq<u8>>,
    p: Seq<u8>,
) -> (next: Seq<Row>)
    requires
        draft.args == base + all_words(spec, work, rows),
        agrees(draft.seen, rows),
        laid(spec, rows),
    ensures
        with_mount(draft, "--bind"@, p).args == base + all_words(spec, work, next),
        agrees(with_mount(draft, "--bind"@, p).seen, next),
        laid(spec, next),
        mounts_of(next) == mounts_of(rows).push(Row::Write(p)),
{
    let next = lemma_mounted(spec, work, draft, rows, Row::Write(p));
    lemma_mount_words(spec, work, p);
    lemma_all_words(spec, work, base, rows, next);
    next
}

proof fn lemma_all_words(
    spec: LaunchView,
    work: Seq<u8>,
    base: Seq<Seq<u8>>,
    rows: Seq<Row>,
    next: Seq<Row>,
)
    requires
        rows.is_prefix_of(next),
    ensures
        (base + all_words(spec, work, rows)) + all_words(spec, work, next.skip(rows.len() as int))
            == base + all_words(spec, work, next),
{
    let more = next.skip(rows.len() as int);
    assert(rows + more =~= next) by {
        assert forall|i: int| 0 <= i < rows.len() implies rows[i] == next[i] by {
            assert(next.subrange(0, rows.len() as int)[i] == next[i]);
        }
    }
    lemma_words_on(spec, work, rows, more);
    let a = all_words(spec, work, rows);
    let b = all_words(spec, work, more);
    assert((base + a) + b =~= base + (a + b));
}

proof fn lemma_read_rows(spec: LaunchView, work: Seq<u8>) -> (rows: Seq<Row>)
    ensures
        ({
            let wanted = launch_roots(spec);
            let draft = with_read_only(
                home_draft(spec, work),
                wanted,
                spec.project,
                wanted.len(),
            );
            &&& draft.args == base_args(spec.state_dir, spec.uid) + all_words(spec, work, rows)
            &&& agrees(draft.seen, rows)
            &&& laid(spec, rows)
            &&& mounts_of(rows) == seq![Row::Home] + reads(
                read_paths(wanted, spec.project, wanted.len()),
            )
        }),
{
    let wanted = launch_roots(spec);
    let front = lemma_home_rows(spec, work);
    let rows = lemma_reads(spec, work, home_draft(spec, work), front, wanted, wanted.len());
    lemma_all_words(spec, work, base_args(spec.state_dir, spec.uid), front, rows);
    rows
}

proof fn lemma_all_rows(spec: LaunchView, work: Seq<u8>) -> (r: (Seq<Row>, Seq<Seq<u8>>))
    ensures
        mount_draft(spec, work).args == base_args(spec.state_dir, spec.uid) + all_words(
            spec,
            work,
            r.0,
        ),
        well_laid(spec, r.0, r.1),
{
    let base = base_args(spec.state_dir, spec.uid);
    let wanted = launch_roots(spec);
    let agent = agent_dir(spec.home);
    let front = lemma_read_rows(spec, work);
    let draft = with_read_only(home_draft(spec, work), wanted, spec.project, wanted.len());
    let shared = lemma_written(spec, work, draft, front, base, agent);
    let rows = lemma_written(
        spec,
        work,
        with_mount(draft, "--bind"@, agent),
        shared,
        base,
        spec.project,
    );
    let paths = read_paths(wanted, spec.project, wanted.len());
    lemma_paths(spec, paths);
    let some = seq![Row::Home] + reads(paths);
    assert(some.push(Row::Write(agent)).push(Row::Write(spec.project)) =~= some + seq![
        Row::Write(agent),
        Row::Write(spec.project),
    ]);
    (rows, paths)
}

/// A command line starts with the words that are the same for every launch; then each
/// setting of the host is shown; then come the rows, well laid; then the sandbox is
/// closed; and what follows sets the environment and starts the program.
#[verifier::spinoff_prover]
#[verifier::rlimit(60)]
pub proof fn law_command_rows(spec: LaunchView, work: Seq<u8>, omp_args: Seq<Seq<u8>>) -> (r: (
    Seq<Row>,
    Seq<Seq<u8>>,
))
    ensures
        ({
            let args = bwrap_command(spec, work, omp_args).args;
            let words = all_words(spec, work, r.0);
            &&& bwrap_command(spec, work, omp_args).program == spec.bwrap
            &&& args.len() > 97 + words.len() + 9
            &&& args.subrange(0, 55) == opening_words(spec)
            &&& forall|i: int|
                0 <= i < 14 ==> args.subrange(55 + 3 * i, 58 + 3 * i) == shown(
                    #[trigger] settings()[i],
                )
            &&& args.subrange(97, (97 + words.len()) as int) == words
            &&& args.subrange((97 + words.len()) as int, (97 + words.len() + 9) as int)
                == closing_words(spec)
            &&& well_laid(spec, r.0, r.1)
        }),
{
    let (rows, paths) = lemma_all_rows(spec, work);
    let words = all_words(spec, work, rows);
    let opening = opening_words(spec);
    let etc = etc_args(settings(), settings().len());
    let closing = closing_words(spec);
    lemma_opening(spec);
    lemma_etc(settings(), settings().len());
    lemma_closing(spec);
    let entries = listing_of(spec.environment);
    let set = env_args(entries, entries.len());
    let last = start_args(spec.project, spec.omp.lexical_executable, omp_args);
    let args = bwrap_command(spec, work, omp_args).args;
    assert(last.len() >= 4);
    lemma_parts(opening, etc, words, closing, set, last);
    assert(args == (opening + etc) + words + closing + set + last);
    lemma_settings(args, etc);
    (rows, paths)
}

proof fn lemma_settings(args: Seq<Seq<u8>>, etc: Seq<Seq<u8>>)
    requires
        args.len() >= 97,
        args.subrange(55, 97) == etc,
        etc == etc_args(settings(), settings().len()),
        settings().len() == 14,
    ensures
        forall|i: int|
            0 <= i < 14 ==> args.subrange(55 + 3 * i, 58 + 3 * i) == shown(
                #[trigger] settings()[i],
            ),
{
    lemma_etc(settings(), settings().len());
    assert forall|i: int| 0 <= i < 14 implies args.subrange(55 + 3 * i, 58 + 3 * i) == shown(
        #[trigger] settings()[i],
    ) by {
        assert(args.subrange(55 + 3 * i, 58 + 3 * i) =~= etc.subrange(3 * i, 3 * i + 3));
    }
}

proof fn lemma_closing(spec: LaunchView)
    ensures
        seal_args(spec.project) == closing_words(spec),
        closing_words(spec).len() == 9,
{
    reveal(closing_words);
    assert(seal_args(spec.project) =~= closing_words(spec));
}

proof fn lemma_parts(
    a: Seq<Seq<u8>>,
    b: Seq<Seq<u8>>,
    c: Seq<Seq<u8>>,
    d: Seq<Seq<u8>>,
    e: Seq<Seq<u8>>,
    f: Seq<Seq<u8>>,
)
    ensures
        ({
            let all = (a + b) + c + d + e + f;
            let ab = (a.len() + b.len()) as int;
            &&& all.len() == ab + c.len() + d.len() + e.len() + f.len()
            &&& all.subrange(0, a.len() as int) == a
            &&& all.subrange(a.len() as int, ab) == b
            &&& all.subrange(ab, ab + c.len()) == c
            &&& all.subrange(ab + c.len(), ab + c.len() + d.len()) == d
        }),
{
    let all = (a + b) + c + d + e + f;
    let ab = (a.len() + b.len()) as int;
    assert(all.subrange(0, a.len() as int) =~= a);
    assert(all.subrange(a.len() as int, ab) =~= b);
    assert(all.subrange(ab, ab + c.len()) =~= c);
    assert(all.subrange(ab + c.len(), ab + c.len() + d.len()) =~= d);
}

proof fn lemma_paths(spec: LaunchView, paths: Seq<Seq<u8>>)
    requires
        paths == read_paths(launch_roots(spec), spec.project, launch_roots(spec).len()),
    ensures
        forall|p: Seq<u8>| #[trigger]
            paths.contains(p) ==> (spec.read_only.contains(p) || spec.omp.mount_roots.contains(p))
                && !is_under(p, spec.project) && components(p) != components(bytes_of("/usr"@)),
        forall|p: Seq<u8>|
            spec.read_only.contains(p) || spec.omp.mount_roots.contains(p) ==> is_under(
                p,
                spec.project,
            ) || is_under(p, bytes_of("/usr"@)) || #[trigger] is_below(paths, p),
        none_nested(paths),
        strictly_ordered(paths),
{
    let wanted = spec.read_only + spec.omp.mount_roots;
    let all = launch_roots(spec);
    law_roots_cover(wanted);
    lemma_read_paths(all, spec.project, all.len());
    assert(all.take(all.len() as int) =~= all);
    assert forall|p: Seq<u8>| #[trigger] paths.contains(p) implies (spec.read_only.contains(p)
        || spec.omp.mount_roots.contains(p)) && !is_under(p, spec.project) && components(p)
        != components(bytes_of("/usr"@)) by {
        assert(all.contains(p));
        assert(wanted.contains(all[all.index_of(p)]));
        let k = wanted.index_of(p);
        if k < spec.read_only.len() {
            assert(spec.read_only[k] == p);
        } else {
            assert(spec.omp.mount_roots[k - spec.read_only.len()] == p);
        }
    }
    assert forall|p: Seq<u8>|
        spec.read_only.contains(p) || spec.omp.mount_roots.contains(p) implies is_under(
        p,
        spec.project,
    ) || is_under(p, bytes_of("/usr"@)) || #[trigger] is_below(paths, p) by {
        let i = if spec.read_only.contains(p) {
            spec.read_only.index_of(p)
        } else {
            spec.read_only.len() + spec.omp.mount_roots.index_of(p)
        };
        assert(wanted[i] == p);
        let n = choose|n: int| 0 <= n < all.len() && is_under(wanted[i], #[trigger] all[n]);
        let root = all[n];
        if is_under(root, spec.project) {
            lemma_under_transitive(p, root, spec.project);
        } else if !same_path(root, bytes_of("/usr"@)) {
            assert(all.contains(root));
            assert(paths.contains(root));
            assert(is_under(p, paths[paths.index_of(root)]));
        }
    }
    assert forall|i: int, j: int|
        0 <= i < j < paths.len() implies path_less(#[trigger] paths[i], #[trigger] paths[j])
        && !is_under(paths[i], paths[j]) && !is_under(paths[j], paths[i]) by {
        assert(come_in_order(all, all.len() as int, paths[i], paths[j]));
    }
}

/// What a configured server needs is in its sandbox: it lies in the project, in the
/// system's programs, or below a path that can be read.
pub proof fn law_servers_find_what_they_need(
    facts: FactsView,
    vars: Seq<(Seq<u8>, Seq<u8>)>,
    project: Seq<u8>,
    allow_read: Seq<Seq<u8>>,
    pass_env: Seq<Seq<u8>>,
    spec: LaunchView,
    rows: Seq<Row>,
    paths: Seq<Seq<u8>>,
    host_path: Seq<u8>,
    server: ServerView,
    root: Seq<u8>,
)
    requires
        launch(facts, vars, project, allow_read, pass_env) == Ok::<LaunchView, StopView>(spec),
        well_laid(spec, rows, paths),
        variable(vars, bytes_of("PATH"@)) == Some(host_path),
        is_configured(facts, spec.home, server),
        server_calls_for(facts, server, spec.home, spec.project, host_path, root),
    ensures
        is_under(root, spec.project) || is_under(root, bytes_of("/usr"@)) || is_below(paths, root),
{
    law_launch_parts(facts, vars, project, allow_read, pass_env, spec);
    let found = discovery(facts, spec.home, spec.project, host_path)->Ok_0;
    law_servers_are_provided(facts, spec.home, spec.project, host_path, found);
    law_launch_holds_what_is_needed(
        facts,
        vars,
        project,
        allow_read,
        pass_env,
        spec,
        host_path,
        found,
    );
    assert(covered(found.mount_roots, root));
    let m = choose|m: int|
        0 <= m < found.mount_roots.len() && is_under(root, #[trigger] found.mount_roots[m]);
    let mount = found.mount_roots[m];
    assert(found.mount_roots.contains(mount));
    lemma_reached(spec, rows, paths, root, mount);
}

/// What OMP needs is in its sandbox: it lies in the project, in the system's programs,
/// or below a path that can be read.
pub proof fn law_omp_finds_what_it_needs(
    facts: FactsView,
    vars: Seq<(Seq<u8>, Seq<u8>)>,
    project: Seq<u8>,
    allow_read: Seq<Seq<u8>>,
    pass_env: Seq<Seq<u8>>,
    spec: LaunchView,
    rows: Seq<Row>,
    paths: Seq<Seq<u8>>,
    host_path: Seq<u8>,
    root: Seq<u8>,
)
    requires
        launch(facts, vars, project, allow_read, pass_env) == Ok::<LaunchView, StopView>(spec),
        well_laid(spec, rows, paths),
        variable(vars, bytes_of("PATH"@)) == Some(host_path),
        runtime_calls_for(facts, spec.omp, host_path, root),
    ensures
        is_under(root, spec.project) || is_under(root, bytes_of("/usr"@)) || is_below(paths, root),
{
    law_launch_parts(facts, vars, project, allow_read, pass_env, spec);
    let found = discovery(facts, spec.home, spec.project, host_path)->Ok_0;
    law_runtime_is_provided(facts, bytes_of("omp"@), host_path, spec.home, spec.omp);
    law_launch_holds_what_is_needed(
        facts,
        vars,
        project,
        allow_read,
        pass_env,
        spec,
        host_path,
        found,
    );
    assert(covered(spec.omp.mount_roots, root));
    let m = choose|m: int|
        0 <= m < spec.omp.mount_roots.len() && is_under(root, #[trigger] spec.omp.mount_roots[m]);
    let mount = spec.omp.mount_roots[m];
    assert(spec.omp.mount_roots.contains(mount));
    lemma_reached(spec, rows, paths, root, mount);
}

proof fn lemma_reached(
    spec: LaunchView,
    rows: Seq<Row>,
    paths: Seq<Seq<u8>>,
    root: Seq<u8>,
    mount: Seq<u8>,
)
    requires
        well_laid(spec, rows, paths),
        is_under(root, mount),
        is_under(mount, spec.project) || exists|k: int|
            0 <= k < spec.read_only.len() && is_under(mount, #[trigger] spec.read_only[k]),
    ensures
        is_under(root, spec.project) || is_under(root, bytes_of("/usr"@)) || is_below(paths, root),
{
    if is_under(mount, spec.project) {
        lemma_under_transitive(root, mount, spec.project);
    } else {
        let k = choose|k: int|
            0 <= k < spec.read_only.len() && is_under(mount, #[trigger] spec.read_only[k]);
        let p = spec.read_only[k];
        assert(spec.read_only.contains(p));
        lemma_under_transitive(root, mount, p);
        if is_under(p, spec.project) {
            lemma_under_transitive(root, p, spec.project);
        } else if is_under(p, bytes_of("/usr"@)) {
            lemma_under_transitive(root, p, bytes_of("/usr"@));
        } else {
            assert(is_below(paths, p));
            let n = choose|n: int| 0 <= n < paths.len() && is_under(p, #[trigger] paths[n]);
            lemma_under_transitive(root, p, paths[n]);
        }
    }
}

} // verus!
