//! Laws of the change detector: what a poll reports, and that rebaselining the directories it
//! reported settles it, so that polling the same tree again reports nothing.
use crate::keyed::{keys_unique, lemma_pairs_at, lemma_pairs_dom, pairs_map};
use crate::text::is_within;
use crate::watcher::file::{
    changes_of, dir_changed, differs, files_within, inside_any, on_disk, rebaseline_all,
    reported, stamp_pairs, DirListing,
};
use vstd::prelude::*;

verus! {

/// `p` lies directly in the directory `dir`: inside it, with no `/` after the directory's own.
pub open spec fn directly_in(p: Seq<char>, dir: Seq<char>) -> bool {
    is_within(p, dir) && forall|k: int| dir.len() < k < p.len() ==> p[k] != '/'
}

/// Each directory lists only files directly in it, and no file is listed twice.
pub open spec fn well_formed_tree(tree: Seq<DirListing>) -> bool {
    &&& forall|i: int, j: int|
        0 <= i < tree.len() && 0 <= j < tree[i].files.len() ==> directly_in(
            (#[trigger] tree[i].files@[j]).0@,
            tree[i].path@,
        )
    &&& forall|i: int, j: int, k: int, l: int|
        0 <= i < tree.len() && 0 <= j < tree[i].files.len() && 0 <= k < tree.len() && 0 <= l
            < tree[k].files.len() && (#[trigger] tree[i].files@[j]).0@ == (#[trigger] tree[k].files@[l]).0@
            ==> i == k && j == l
}

/// Inside is transitive.
proof fn lemma_within_trans(p: Seq<char>, d: Seq<char>, c: Seq<char>)
    requires
        is_within(p, d),
        is_within(d, c),
    ensures
        is_within(p, c),
{
    let n = c.len() + 1int;
    assert(p.subrange(0, n) =~= d.subrange(0, n)) by {
        assert forall|k: int| 0 <= k < n implies p.subrange(0, n)[k] == d.subrange(0, n)[k] by {
            assert(p.subrange(0, d.len() + 1int)[k] == (d + seq!['/'])[k]);
        }
    }
}

/// A file directly in `d` lies inside `c` exactly when `d` is `c` or lies inside it.
proof fn lemma_direct_within(q: Seq<char>, d: Seq<char>, c: Seq<char>)
    requires
        directly_in(q, d),
    ensures
        is_within(q, c) <==> (d == c || is_within(d, c)),
{
    if d == c {
    } else if is_within(d, c) {
        lemma_within_trans(q, d, c);
    }
    if is_within(q, c) {
        assert(q.subrange(0, c.len() + 1int)[c.len() as int] == '/');
        assert(q[c.len() as int] == '/');
        assert(q.subrange(0, d.len() + 1int)[d.len() as int] == '/');
        assert(c.len() <= d.len());
        if c.len() == d.len() {
            assert(d =~= c) by {
                assert forall|k: int| 0 <= k < c.len() implies d[k] == c[k] by {
                    assert(q.subrange(0, d.len() + 1int)[k] == (d + seq!['/'])[k]);
                    assert(q.subrange(0, c.len() + 1int)[k] == (c + seq!['/'])[k]);
                }
            }
        } else {
            assert(d.subrange(0, c.len() + 1int) =~= c + seq!['/']) by {
                assert forall|k: int| 0 <= k < c.len() + 1 implies d.subrange(0, c.len() + 1int)[k]
                    == (c + seq!['/'])[k] by {
                    assert(q.subrange(0, d.len() + 1int)[k] == (d + seq!['/'])[k]);
                    assert(q.subrange(0, c.len() + 1int)[k] == (c + seq!['/'])[k]);
                }
            }
        }
    }
}

/// The map of a concatenation: the later part wins.
proof fn lemma_pairs_concat(a: Seq<(Seq<char>, u128)>, b: Seq<(Seq<char>, u128)>)
    ensures
        pairs_map(a + b) == pairs_map(a).union_prefer_right(pairs_map(b)),
    decreases b.len(),
{
    if b.len() == 0 {
        assert(a + b =~= a);
        assert(pairs_map(a).union_prefer_right(pairs_map(b)) =~= pairs_map(a));
    } else {
        lemma_pairs_concat(a, b.drop_last());
        assert((a + b).drop_last() =~= a + b.drop_last());
        assert((a + b).last() == b.last());
        assert(pairs_map(a + b) =~= pairs_map(a).union_prefer_right(pairs_map(b)));
    }
}

/// A prefix of a well-formed tree is well formed.
proof fn lemma_prefix_well_formed(tree: Seq<DirListing>, n: int)
    requires
        well_formed_tree(tree),
        0 <= n <= tree.len(),
    ensures
        well_formed_tree(tree.subrange(0, n)),
{
    let t = tree.subrange(0, n);
    assert forall|i: int, j: int| 0 <= i < t.len() && 0 <= j < t[i].files.len() implies directly_in(
        (#[trigger] t[i].files@[j]).0@,
        t[i].path@,
    ) by {
        assert(t[i] == tree[i]);
        assert(tree[i].files@[j] == t[i].files@[j]);
    }
    assert forall|i: int, j: int, k: int, l: int|
        0 <= i < t.len() && 0 <= j < t[i].files.len() && 0 <= k < t.len() && 0 <= l
            < t[k].files.len() && (#[trigger] t[i].files@[j]).0@ == (#[trigger] t[k].files@[l]).0@
            implies i == k && j == l by {
        assert(t[i] == tree[i] && t[k] == tree[k]);
        assert(tree[i].files@[j] == t[i].files@[j]);
        assert(tree[k].files@[l] == t[k].files@[l]);
    }
}

/// What the files inside `c` map to: exactly the files of the tree inside `c`, each with its
/// time.
proof fn lemma_files_within_map(tree: Seq<DirListing>, c: Seq<char>)
    requires
        well_formed_tree(tree),
    ensures
        forall|p: Seq<char>|
            #[trigger] pairs_map(files_within(tree, c)).contains_key(p) <==> (on_disk(tree, p)
                && is_within(p, c)),
        forall|i: int, j: int|
            0 <= i < tree.len() && 0 <= j < tree[i].files.len() && is_within(
                (#[trigger] tree[i].files@[j]).0@,
                c,
            ) ==> pairs_map(files_within(tree, c))[tree[i].files@[j].0@] == tree[i].files@[j].1,
    decreases tree.len(),
{
    if tree.len() > 0 {
        let t = tree.drop_last();
        let d = tree.last();
        let last = tree.len() - 1;
        assert(t =~= tree.subrange(0, last));
        lemma_prefix_well_formed(tree, last);
        lemma_files_within_map(t, c);
        let rest = files_within(t, c);
        let own = stamp_pairs(d.files@);
        let cond = d.path@ == c || is_within(d.path@, c);
        assert(keys_unique(own)) by {
            assert forall|a: int, b: int| 0 <= a < own.len() && 0 <= b < own.len() && a != b implies own[a].0
                != own[b].0 by {
                assert(tree[last].files@[a] == d.files@[a]);
                assert(tree[last].files@[b] == d.files@[b]);
            }
        }
        if cond {
            lemma_pairs_concat(rest, own);
        }
        assert forall|p: Seq<char>|
            #[trigger] pairs_map(files_within(tree, c)).contains_key(p) <==> (on_disk(tree, p)
                && is_within(p, c)) by {
            lemma_pairs_dom(own, p);
            if on_disk(tree, p) {
                let (i, j) = choose|i: int, j: int|
                    0 <= i < tree.len() && 0 <= j < tree[i].files.len() && (#[trigger] tree[i].files@[j]).0@
                        == p;
                if i < last {
                    assert(t[i] == tree[i]);
                    assert(t[i].files@[j] == tree[i].files@[j]);
                    assert(on_disk(t, p));
                } else {
                    assert(own[j].0 == p);
                    lemma_direct_within(p, d.path@, c);
                }
            }
            if on_disk(t, p) {
                let (i, j) = choose|i: int, j: int|
                    0 <= i < t.len() && 0 <= j < t[i].files.len() && (#[trigger] t[i].files@[j]).0@ == p;
                assert(t[i] == tree[i]);
                assert(tree[i].files@[j] == t[i].files@[j]);
            }
            if exists|j: int| 0 <= j < own.len() && own[j].0 == p {
                let j = choose|j: int| 0 <= j < own.len() && own[j].0 == p;
                assert(tree[last].files@[j] == d.files@[j]);
                lemma_direct_within(p, d.path@, c);
            }
        }
        assert forall|i: int, j: int|
            0 <= i < tree.len() && 0 <= j < tree[i].files.len() && is_within(
                (#[trigger] tree[i].files@[j]).0@,
                c,
            ) implies pairs_map(files_within(tree, c))[tree[i].files@[j].0@] == tree[i].files@[j].1 by {
            let p = tree[i].files@[j].0@;
            lemma_pairs_dom(own, p);
            if i < last {
                assert(t[i] == tree[i]);
                assert(t[i].files@[j] == tree[i].files@[j]);
                if exists|l: int| 0 <= l < own.len() && own[l].0 == p {
                    let l = choose|l: int| 0 <= l < own.len() && own[l].0 == p;
                    assert(tree[last].files@[l] == d.files@[l]);
                }
            } else {
                lemma_direct_within(p, d.path@, c);
                assert(own[j] == (p, tree[i].files@[j].1));
                lemma_pairs_at(own, j);
            }
        }
    }
}

/// After rebaselining at `dirs`, a path inside one of them is remembered exactly when it is a
/// file of the tree, with the tree's time; any other path is remembered as before.
proof fn lemma_rebaseline_all(
    state: Map<Seq<char>, u128>,
    dirs: Seq<Seq<char>>,
    tree: Seq<DirListing>,
    p: Seq<char>,
)
    requires
        well_formed_tree(tree),
    ensures
        inside_any(p, dirs) ==> (rebaseline_all(state, dirs, tree).contains_key(p) <==> on_disk(
            tree,
            p,
        )),
        inside_any(p, dirs) ==> forall|i: int, j: int|
            0 <= i < tree.len() && 0 <= j < tree[i].files.len() && (#[trigger] tree[i].files@[j]).0@
                == p ==> rebaseline_all(state, dirs, tree)[p] == tree[i].files@[j].1,
        !inside_any(p, dirs) ==> (rebaseline_all(state, dirs, tree).contains_key(p)
            <==> state.contains_key(p)),
        !inside_any(p, dirs) && state.contains_key(p) ==> rebaseline_all(state, dirs, tree)[p]
            == state[p],
    decreases dirs.len(),
{
    if dirs.len() > 0 {
        let before = dirs.drop_last();
        let c = dirs.last();
        lemma_rebaseline_all(state, before, tree, p);
        lemma_files_within_map(tree, c);
        if inside_any(p, before) {
            let k = choose|k: int| 0 <= k < before.len() && is_within(p, #[trigger] before[k]);
            assert(dirs[k] == before[k]);
        }
        if inside_any(p, dirs) && !is_within(p, c) {
            let k = choose|k: int| 0 <= k < dirs.len() && is_within(p, #[trigger] dirs[k]);
            assert(k < before.len());
            assert(before[k] == dirs[k]);
        }
        if is_within(p, c) {
            assert(dirs[dirs.len() - 1] == c);
        }
    }
}

/// A reported directory stays reported as the poll goes on.
proof fn lemma_reported_grows(state: Map<Seq<char>, u128>, tree: Seq<DirListing>, k: int, n: int)
    requires
        0 <= k <= n <= tree.len(),
    ensures
        forall|m: int|
            0 <= m < reported(state, tree, k).len() ==> reported(state, tree, n).contains(
                #[trigger] reported(state, tree, k)[m],
            ),
    decreases n - k,
{
    if k < n {
        lemma_reported_grows(state, tree, k, n - 1);
        assert forall|m: int| 0 <= m < reported(state, tree, k).len() implies reported(
            state,
            tree,
            n,
        ).contains(#[trigger] reported(state, tree, k)[m]) by {
            let x = reported(state, tree, k)[m];
            let prev = reported(state, tree, n - 1);
            let i = choose|i: int| 0 <= i < prev.len() && prev[i] == x;
            assert(reported(state, tree, n)[i] == x);
        }
    }
}

/// A directory that was neither reported nor inside a reported one did not change.
proof fn lemma_unreported_unchanged(state: Map<Seq<char>, u128>, tree: Seq<DirListing>, i: int)
    requires
        0 <= i < tree.len(),
        !changes_of(state, tree).contains(tree[i].path@),
        !inside_any(tree[i].path@, changes_of(state, tree)),
    ensures
        !dir_changed(state, tree[i], tree),
{
    let all = changes_of(state, tree);
    let prev = reported(state, tree, i);
    lemma_reported_grows(state, tree, i, tree.len() as int);
    lemma_reported_grows(state, tree, i + 1, tree.len() as int);
    if inside_any(tree[i].path@, prev) {
        let k = choose|k: int| 0 <= k < prev.len() && is_within(tree[i].path@, #[trigger] prev[k]);
        let m = choose|m: int| 0 <= m < all.len() && all[m] == prev[k];
        assert(is_within(tree[i].path@, all[m]));
    }
    if dir_changed(state, tree[i], tree) {
        let now = reported(state, tree, i + 1);
        assert(now[now.len() - 1] == tree[i].path@);
    }
}

/// After rebaselining at the directories that a poll of `tree` reported, polling the same tree
/// reports nothing: each change is reported once.
pub proof fn lemma_rescan_settles(state: Map<Seq<char>, u128>, tree: Seq<DirListing>)
    requires
        well_formed_tree(tree),
    ensures
        changes_of(rebaseline_all(state, changes_of(state, tree), tree), tree).len() == 0,
{
    let all = changes_of(state, tree);
    let next = rebaseline_all(state, all, tree);
    assert forall|i: int| 0 <= i < tree.len() implies !dir_changed(next, #[trigger] tree[i], tree) by {
        let d = tree[i];
        assert forall|j: int| 0 <= j < d.files.len() implies !differs(
            next,
            ((#[trigger] d.files@[j]).0@, d.files@[j].1),
        ) by {
            let q = d.files@[j].0@;
            assert(tree[i].files@[j] == d.files@[j]);
            lemma_rebaseline_all(state, all, tree, q);
            if !inside_any(q, all) {
                if all.contains(d.path@) {
                    let m = choose|m: int| 0 <= m < all.len() && all[m] == d.path@;
                    lemma_direct_within(q, d.path@, all[m]);
                }
                if inside_any(d.path@, all) {
                    let m = choose|m: int| 0 <= m < all.len() && is_within(d.path@, #[trigger] all[m]);
                    lemma_direct_within(q, d.path@, all[m]);
                }
                lemma_unreported_unchanged(state, tree, i);
            }
        }
        assert forall|p: Seq<char>|
            #[trigger] next.contains_key(p) && is_within(p, d.path@) implies on_disk(tree, p) by {
            lemma_rebaseline_all(state, all, tree, p);
            if !inside_any(p, all) {
                if all.contains(d.path@) {
                    let m = choose|m: int| 0 <= m < all.len() && all[m] == d.path@;
                    assert(is_within(p, all[m]));
                }
                if inside_any(d.path@, all) {
                    let m = choose|m: int| 0 <= m < all.len() && is_within(d.path@, #[trigger] all[m]);
                    lemma_within_trans(p, d.path@, all[m]);
                }
                lemma_unreported_unchanged(state, tree, i);
            }
        }
    }
    lemma_nothing_changed(next, tree, tree.len() as int);
}

/// Every directory that a poll reports is a directory of the tree that changed, and none lies
/// inside one reported before it.
pub proof fn lemma_reports_are_changed(state: Map<Seq<char>, u128>, tree: Seq<DirListing>)
    ensures
        forall|m: int|
            0 <= m < changes_of(state, tree).len() ==> exists|i: int|
                0 <= i < tree.len() && tree[i].path@ == #[trigger] changes_of(state, tree)[m]
                    && dir_changed(state, tree[i], tree),
        forall|a: int, b: int|
            0 <= a < b < changes_of(state, tree).len() ==> !is_within(
                #[trigger] changes_of(state, tree)[b],
                #[trigger] changes_of(state, tree)[a],
            ),
{
    lemma_reports_are_changed_upto(state, tree, tree.len() as int);
}

proof fn lemma_reports_are_changed_upto(state: Map<Seq<char>, u128>, tree: Seq<DirListing>, n: int)
    requires
        0 <= n <= tree.len(),
    ensures
        forall|m: int|
            0 <= m < reported(state, tree, n).len() ==> exists|i: int|
                0 <= i < tree.len() && tree[i].path@ == #[trigger] reported(state, tree, n)[m]
                    && dir_changed(state, tree[i], tree),
        forall|a: int, b: int|
            0 <= a < b < reported(state, tree, n).len() ==> !is_within(
                #[trigger] reported(state, tree, n)[b],
                #[trigger] reported(state, tree, n)[a],
            ),
    decreases n,
{
    if n > 0 {
        lemma_reports_are_changed_upto(state, tree, n - 1);
        let prev = reported(state, tree, n - 1);
        let now = reported(state, tree, n);
        let d = tree[n - 1];
        if !inside_any(d.path@, prev) && dir_changed(state, d, tree) {
            assert forall|m: int| 0 <= m < now.len() implies exists|i: int|
                0 <= i < tree.len() && tree[i].path@ == #[trigger] now[m] && dir_changed(
                    state,
                    tree[i],
                    tree,
                ) by {
                if m < prev.len() {
                    assert(now[m] == prev[m]);
                } else {
                    assert(tree[n - 1].path@ == now[m]);
                }
            }
            assert forall|a: int, b: int| 0 <= a < b < now.len() implies !is_within(
                #[trigger] now[b],
                #[trigger] now[a],
            ) by {
                assert(now[a] == prev[a]);
                if b < prev.len() {
                    assert(now[b] == prev[b]);
                } else {
                    assert(now[b] == d.path@);
                }
            }
        }
    }
}

/// When no directory changed, nothing is reported.
proof fn lemma_nothing_changed(state: Map<Seq<char>, u128>, tree: Seq<DirListing>, n: int)
    requires
        0 <= n <= tree.len(),
        forall|i: int| 0 <= i < tree.len() ==> !dir_changed(state, #[trigger] tree[i], tree),
    ensures
        reported(state, tree, n).len() == 0,
    decreases n,
{
    if n > 0 {
        lemma_nothing_changed(state, tree, n - 1);
    }
}

} // verus!
