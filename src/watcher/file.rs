//! Change detection: which directories of a content tree differ from a remembered snapshot of
//! file modification times. The tree itself is read elsewhere and handed in as a listing.
use crate::keyed::{
    keys_unique, lemma_pairs_at, lemma_pairs_dom, lemma_pairs_push, lemma_pairs_remove,
    lemma_pairs_update, pairs_map,
};
use crate::text::{is_within, is_within_str, same_str, views};
use vstd::prelude::*;

verus! {

/// One directory of a content tree: its path and its immediate files, each with its
/// modification time in nanoseconds since the Unix epoch.
#[derive(Debug, Clone)]
pub struct DirListing {
    pub path: String,
    pub files: Vec<(String, u128)>,
}

/// A change detector as plain values.
pub struct FileWatcherView {
    pub dir: Seq<char>,
    pub state: Map<Seq<char>, u128>,
    pub changed_dirs: Seq<Seq<char>>,
}

/// Remembers the modification time of each file under a root directory, and reports the
/// directories whose files differ from what it remembers.
#[derive(Debug)]
pub struct FileWatcher {
    dir: String,
    state: Vec<(String, u128)>,
    changed_dirs: Vec<String>,
}

/// Each stamp as a pair of a path and a time.
pub open spec fn stamp_pairs(s: Seq<(String, u128)>) -> Seq<(Seq<char>, u128)> {
    s.map_values(|p: (String, u128)| (p.0@, p.1))
}

/// `p` is a file of the tree.
pub open spec fn on_disk(tree: Seq<DirListing>, p: Seq<char>) -> bool {
    exists|i: int, j: int|
        0 <= i < tree.len() && 0 <= j < tree[i].files.len() && (#[trigger] tree[i].files@[j]).0@
            == p
}

/// The file `f` is new, or its time differs from the remembered one.
pub open spec fn differs(state: Map<Seq<char>, u128>, f: (Seq<char>, u128)) -> bool {
    !state.contains_key(f.0) || state[f.0] != f.1
}

/// A directory changed: one of its own files is new or modified, or a remembered file inside it
/// is gone from the tree.
pub open spec fn dir_changed(state: Map<Seq<char>, u128>, d: DirListing, tree: Seq<DirListing>) -> bool {
    ||| exists|j: int|
        0 <= j < d.files.len() && differs(state, ((#[trigger] d.files@[j]).0@, d.files@[j].1))
    ||| exists|p: Seq<char>|
        #[trigger] state.contains_key(p) && is_within(p, d.path@) && !on_disk(tree, p)
}

/// `p` lies inside one of `dirs`.
pub open spec fn inside_any(p: Seq<char>, dirs: Seq<Seq<char>>) -> bool {
    exists|i: int| 0 <= i < dirs.len() && is_within(p, #[trigger] dirs[i])
}

/// The changed directories among the first `n` of the tree, top down: a directory inside one
/// already reported is not examined.
pub open spec fn reported(state: Map<Seq<char>, u128>, tree: Seq<DirListing>, n: int) -> Seq<
    Seq<char>,
>
    decreases n,
{
    if n <= 0 || n > tree.len() {
        Seq::empty()
    } else {
        let prev = reported(state, tree, n - 1);
        let d = tree[n - 1];
        if !inside_any(d.path@, prev) && dir_changed(state, d, tree) {
            prev.push(d.path@)
        } else {
            prev
        }
    }
}

/// The changed directories of the tree, listed parents before children.
pub open spec fn changes_of(state: Map<Seq<char>, u128>, tree: Seq<DirListing>) -> Seq<Seq<char>> {
    reported(state, tree, tree.len() as int)
}

/// The files of the tree that lie in `dir` or below it.
pub open spec fn files_within(tree: Seq<DirListing>, dir: Seq<char>) -> Seq<(Seq<char>, u128)>
    decreases tree.len(),
{
    if tree.len() == 0 {
        Seq::empty()
    } else {
        let rest = files_within(tree.drop_last(), dir);
        let d = tree.last();
        if d.path@ == dir || is_within(d.path@, dir) {
            rest + stamp_pairs(d.files@)
        } else {
            rest
        }
    }
}

/// The snapshot with everything remembered inside `dir` replaced by the files the tree has
/// there.
pub open spec fn rebaseline(state: Map<Seq<char>, u128>, dir: Seq<char>, tree: Seq<DirListing>) -> Map<
    Seq<char>,
    u128,
> {
    state.restrict(Set::new(|p: Seq<char>| !is_within(p, dir))).union_prefer_right(
        pairs_map(files_within(tree, dir)),
    )
}

/// The snapshot rebaselined at each of `dirs` in turn.
pub open spec fn rebaseline_all(
    state: Map<Seq<char>, u128>,
    dirs: Seq<Seq<char>>,
    tree: Seq<DirListing>,
) -> Map<Seq<char>, u128>
    decreases dirs.len(),
{
    if dirs.len() == 0 {
        state
    } else {
        rebaseline(rebaseline_all(state, dirs.drop_last(), tree), dirs.last(), tree)
    }
}

/// An owned copy of a list of strings.
fn copy_strings(v: &Vec<String>) -> (r: Vec<String>)
    ensures
        r@ == v@,
{
    let mut r: Vec<String> = Vec::new();
    let mut i: usize = 0;
    while i < v.len()
        invariant
            i <= v.len(),
            r@ == v@.subrange(0, i as int),
        decreases v.len() - i,
    {
        r.push(v[i].clone());
        i = i + 1;
    }
    assert(v@.subrange(0, v.len() as int) =~= v@);
    r
}

/// Whether `p` is a file of the tree.
fn on_disk_exec(tree: &Vec<DirListing>, p: &str) -> (r: bool)
    ensures
        r == on_disk(tree@, p@),
{
    let mut i: usize = 0;
    while i < tree.len()
        invariant
            i <= tree.len(),
            forall|a: int, b: int|
                0 <= a < i && 0 <= b < tree@[a].files.len() ==> (#[trigger] tree@[a].files@[b]).0@
                    != p@,
        decreases tree.len() - i,
    {
        let files = &tree[i].files;
        let mut j: usize = 0;
        while j < files.len()
            invariant
                i < tree.len(),
                files == tree@[i as int].files,
                j <= files.len(),
                forall|b: int| 0 <= b < j ==> (#[trigger] files@[b]).0@ != p@,
            decreases files.len() - j,
        {
            if same_str(files[j].0.as_str(), p) {
                return true;
            }
            j = j + 1;
        }
        i = i + 1;
    }
    false
}

/// Whether `p` lies inside one of `dirs`.
fn inside_any_exec(dirs: &Vec<String>, p: &str) -> (r: bool)
    ensures
        r == inside_any(p@, views(dirs@)),
{
    let mut i: usize = 0;
    while i < dirs.len()
        invariant
            i <= dirs.len(),
            forall|a: int| 0 <= a < i ==> !is_within(p@, #[trigger] views(dirs@)[a]),
        decreases dirs.len() - i,
    {
        if is_within_str(p, dirs[i].as_str()) {
            assert(views(dirs@)[i as int] == dirs@[i as int]@);
            return true;
        }
        assert(views(dirs@)[i as int] == dirs@[i as int]@);
        i = i + 1;
    }
    false
}

/// The files of the tree that lie in `dir` or below it.
fn files_within_exec(tree: &Vec<DirListing>, dir: &str) -> (r: Vec<(String, u128)>)
    ensures
        stamp_pairs(r@) == files_within(tree@, dir@),
{
    let mut out: Vec<(String, u128)> = Vec::new();
    let mut i: usize = 0;
    while i < tree.len()
        invariant
            i <= tree.len(),
            stamp_pairs(out@) == files_within(tree@.subrange(0, i as int), dir@),
        decreases tree.len() - i,
    {
        let d = &tree[i];
        proof {
            assert(tree@.subrange(0, i + 1).drop_last() =~= tree@.subrange(0, i as int));
            assert(tree@.subrange(0, i + 1).last() == *d);
        }
        let ghost base = stamp_pairs(out@);
        if same_str(d.path.as_str(), dir) || is_within_str(d.path.as_str(), dir) {
            let mut j: usize = 0;
            while j < d.files.len()
                invariant
                    j <= d.files.len(),
                    stamp_pairs(out@) == base + stamp_pairs(d.files@.subrange(0, j as int)),
                decreases d.files.len() - j,
            {
                let ghost prev = out@;
                out.push((d.files[j].0.clone(), d.files[j].1));
                proof {
                    assert(stamp_pairs(out@) =~= stamp_pairs(prev).push(
                        (d.files@[j as int].0@, d.files@[j as int].1),
                    ));
                    assert(stamp_pairs(d.files@.subrange(0, j + 1)) =~= stamp_pairs(
                        d.files@.subrange(0, j as int),
                    ).push((d.files@[j as int].0@, d.files@[j as int].1)));
                    assert(stamp_pairs(out@) =~= base + stamp_pairs(
                        d.files@.subrange(0, j + 1),
                    ));
                }
                j = j + 1;
            }
            assert(d.files@.subrange(0, d.files.len() as int) =~= d.files@);
        } else {
        }
        i = i + 1;
    }
    assert(tree@.subrange(0, tree.len() as int) =~= tree@);
    out
}

impl View for FileWatcher {
    type V = FileWatcherView;

    closed spec fn view(&self) -> FileWatcherView {
        FileWatcherView {
            dir: self.dir@,
            state: pairs_map(stamp_pairs(self.state@)),
            changed_dirs: views(self.changed_dirs@),
        }
    }
}

impl FileWatcher {
    #[verifier::type_invariant]
    spec fn unique_paths(&self) -> bool {
        keys_unique(stamp_pairs(self.state@))
    }

    /// A detector for the tree at `dir` that remembers `state` (of two stamps of one path the
    /// later is kept), or nothing.
    pub fn new(dir: &str, state: Option<&Vec<(String, u128)>>) -> (r: FileWatcher)
        ensures
            r@.dir == dir@,
            r@.state == match state {
                Some(v) => pairs_map(stamp_pairs(v@)),
                None => Map::<Seq<char>, u128>::empty(),
            },
            r@.changed_dirs.len() == 0,
    {
        let mut w = FileWatcher { dir: dir.to_owned(), state: Vec::new(), changed_dirs: Vec::new() };
        assert(w@.state =~= Map::empty());
        assert(w@.changed_dirs =~= Seq::empty());
        match state {
            Some(v) => {
                let mut i: usize = 0;
                while i < v.len()
                    invariant
                        i <= v.len(),
                        w@.dir == dir@,
                        w@.changed_dirs.len() == 0,
                        w@.state == pairs_map(stamp_pairs(v@.subrange(0, i as int))),
                    decreases v.len() - i,
                {
                    w.add(v[i].0.as_str(), v[i].1);
                    proof {
                        assert(stamp_pairs(v@.subrange(0, i + 1)).drop_last() =~= stamp_pairs(
                            v@.subrange(0, i as int),
                        ));
                    }
                    i = i + 1;
                }
                assert(v@.subrange(0, v.len() as int) =~= v@);
            },
            None => {},
        }
        w
    }

    /// The root directory of the tree.
    pub fn dir(&self) -> (r: &str)
        ensures
            r@ == self@.dir,
    {
        self.dir.as_str()
    }

    /// The position of the stamp of `path`.
    fn position(&self, path: &str) -> (r: Option<usize>)
        ensures
            match r {
                Some(i) => i < self.state.len() && self.state@[i as int].0@ == path@,
                None => forall|i: int| 0 <= i < self.state.len() ==> self.state@[i].0@ != path@,
            },
    {
        let mut i: usize = 0;
        while i < self.state.len()
            invariant
                i <= self.state.len(),
                forall|j: int| 0 <= j < i ==> self.state@[j].0@ != path@,
            decreases self.state.len() - i,
        {
            if same_str(self.state[i].0.as_str(), path) {
                return Some(i);
            }
            i = i + 1;
        }
        None
    }

    /// Remembers `modified` as the time of `path`.
    pub fn add(&mut self, path: &str, modified: u128)
        ensures
            final(self)@ == (FileWatcherView {
                state: old(self)@.state.insert(path@, modified),
                ..old(self)@
            }),
    {
        proof {
            use_type_invariant(&*self);
        }
        let ghost before = self.state@;
        let ghost pair = (path@, modified);
        match self.position(path) {
            Some(i) => {
                let mut state = Vec::new();
                std::mem::swap(&mut state, &mut self.state);
                state.set(i, (path.to_owned(), modified));
                proof {
                    lemma_pairs_update(stamp_pairs(before), i as int, pair);
                    assert(stamp_pairs(state@) =~= stamp_pairs(before).update(i as int, pair));
                }
                self.state = state;
            },
            None => {
                let mut state = Vec::new();
                std::mem::swap(&mut state, &mut self.state);
                state.push((path.to_owned(), modified));
                proof {
                    lemma_pairs_push(stamp_pairs(before), pair);
                    assert(stamp_pairs(state@) =~= stamp_pairs(before).push(pair));
                }
                self.state = state;
            },
        }
    }

    /// Forgets `path`.
    pub fn remove(&mut self, path: &str)
        ensures
            final(self)@ == (FileWatcherView {
                state: old(self)@.state.remove(path@),
                ..old(self)@
            }),
    {
        proof {
            use_type_invariant(&*self);
        }
        let ghost before = self.state@;
        match self.position(path) {
            Some(i) => {
                let mut state = Vec::new();
                std::mem::swap(&mut state, &mut self.state);
                state.remove(i);
                proof {
                    lemma_pairs_remove(stamp_pairs(before), i as int);
                    assert(stamp_pairs(state@) =~= stamp_pairs(before).remove(i as int));
                }
                self.state = state;
            },
            None => {
                proof {
                    lemma_pairs_dom(stamp_pairs(before), path@);
                    if pairs_map(stamp_pairs(before)).contains_key(path@) {
                        let j = choose|j: int|
                            0 <= j < before.len() && stamp_pairs(before)[j].0 == path@;
                        assert(before[j].0@ == path@);
                    }
                    assert(self@.state.remove(path@) =~= self@.state);
                }
            },
        }
    }

    /// Whether the directory `dir` of the tree changed since the snapshot.
    pub fn has_changes_in_directory(&self, dir: &DirListing, tree: &Vec<DirListing>) -> (r: bool)
        ensures
            r == dir_changed(self@.state, *dir, tree@),
    {
        proof {
            use_type_invariant(self);
        }
        let ghost st = self@.state;
        let ghost s = stamp_pairs(self.state@);
        let mut j: usize = 0;
        while j < dir.files.len()
            invariant
                j <= dir.files.len(),
                st == pairs_map(s),
                s == stamp_pairs(self.state@),
                keys_unique(s),
                forall|l: int|
                    0 <= l < j ==> !differs(st, ((#[trigger] dir.files@[l]).0@, dir.files@[l].1)),
            decreases dir.files.len() - j,
        {
            let f = &dir.files[j];
            match self.position(f.0.as_str()) {
                Some(i) => {
                    proof {
                        lemma_pairs_at(s, i as int);
                    }
                    if self.state[i].1 != f.1 {
                        return true;
                    }
                },
                None => {
                    proof {
                        lemma_pairs_dom(s, f.0@);
                    }
                    return true;
                },
            }
            j = j + 1;
        }
        let mut i: usize = 0;
        while i < self.state.len()
            invariant
                i <= self.state.len(),
                st == pairs_map(s),
                s == stamp_pairs(self.state@),
                keys_unique(s),
                forall|l: int|
                    0 <= l < i ==> !(is_within((#[trigger] self.state@[l]).0@, dir.path@) && !on_disk(
                        tree@,
                        self.state@[l].0@,
                    )),
            decreases self.state.len() - i,
        {
            if is_within_str(self.state[i].0.as_str(), dir.path.as_str()) && !on_disk_exec(
                tree,
                self.state[i].0.as_str(),
            ) {
                proof {
                    lemma_pairs_at(s, i as int);
                }
                return true;
            }
            i = i + 1;
        }
        assert forall|p: Seq<char>| #[trigger]
            st.contains_key(p) implies !(is_within(p, dir.path@) && !on_disk(tree@, p)) by {
            lemma_pairs_dom(s, p);
            let l = choose|l: int| 0 <= l < s.len() && s[l].0 == p;
            assert(self.state@[l].0@ == p);
        }
        false
    }

    /// The directories that changed since the snapshot, parents before children, not looking
    /// inside a directory already found changed. They are also kept as the last changes.
    pub fn changes(&mut self, tree: &Vec<DirListing>) -> (r: Vec<String>)
        ensures
            views(r@) == changes_of(old(self)@.state, tree@),
            final(self)@ == (FileWatcherView { changed_dirs: views(r@), ..old(self)@ }),
    {
        let mut out: Vec<String> = Vec::new();
        let mut i: usize = 0;
        assert(views(out@) =~= Seq::empty());
        while i < tree.len()
            invariant
                i <= tree.len(),
                views(out@) == reported(self@.state, tree@, i as int),
            decreases tree.len() - i,
        {
            let d = &tree[i];
            if !inside_any_exec(&out, d.path.as_str()) && self.has_changes_in_directory(d, tree) {
                let ghost prev = out@;
                out.push(d.path.clone());
                assert(views(out@) =~= views(prev).push(d.path@));
            }
            i = i + 1;
        }
        proof {
            use_type_invariant(&*self);
        }
        self.changed_dirs = copy_strings(&out);
        out
    }

    /// Replaces everything remembered inside `dir` (the root when absent) by the files the tree
    /// has there.
    pub fn scan(&mut self, dir: Option<&str>, tree: &Vec<DirListing>)
        ensures
            final(self)@ == (FileWatcherView {
                state: rebaseline(
                    old(self)@.state,
                    match dir {
                        Some(d) => d@,
                        None => old(self)@.dir,
                    },
                    tree@,
                ),
                ..old(self)@
            }),
    {
        proof {
            use_type_invariant(&*self);
        }
        let d: String = match dir {
            Some(x) => x.to_owned(),
            None => self.dir.clone(),
        };
        let ghost s = stamp_pairs(self.state@);
        let ghost outside = Set::new(|p: Seq<char>| !is_within(p, d@));
        let mut kept: Vec<(String, u128)> = Vec::new();
        let mut i: usize = 0;
        while i < self.state.len()
            invariant
                i <= self.state.len(),
                s == stamp_pairs(self.state@),
                keys_unique(s),
                outside == Set::new(|p: Seq<char>| !is_within(p, d@)),
                keys_unique(stamp_pairs(kept@)),
                pairs_map(stamp_pairs(kept@)) == pairs_map(s.subrange(0, i as int)).restrict(
                    outside,
                ),
            decreases self.state.len() - i,
        {
            let ghost pre = pairs_map(s.subrange(0, i as int));
            proof {
                assert(s.subrange(0, i + 1).drop_last() =~= s.subrange(0, i as int));
                lemma_pairs_dom(s.subrange(0, i as int), s[i as int].0);
                if pre.contains_key(s[i as int].0) {
                    let j = choose|j: int|
                        0 <= j < i && s.subrange(0, i as int)[j].0 == s[i as int].0;
                    assert(s[j].0 == s[i as int].0);
                }
            }
            if !is_within_str(self.state[i].0.as_str(), d.as_str()) {
                let ghost before = stamp_pairs(kept@);
                proof {
                    assert forall|j: int| 0 <= j < before.len() implies before[j].0 != s[i as int].0 by {
                        lemma_pairs_dom(before, before[j].0);
                    }
                    lemma_pairs_push(before, s[i as int]);
                }
                kept.push((self.state[i].0.clone(), self.state[i].1));
                proof {
                    assert(stamp_pairs(kept@) =~= before.push(s[i as int]));
                }
            }
            proof {
                let post = pairs_map(s.subrange(0, i + 1));
                assert(pairs_map(stamp_pairs(kept@)) =~= post.restrict(outside));
            }
            i = i + 1;
        }
        proof {
            assert(s.subrange(0, self.state.len() as int) =~= s);
        }
        let files = files_within_exec(tree, d.as_str());
        let ghost base = pairs_map(stamp_pairs(kept@));
        let ghost fs = stamp_pairs(files@);
        self.state = kept;
        let mut k: usize = 0;
        assert(pairs_map(fs.subrange(0, 0)) =~= Map::<Seq<char>, u128>::empty());
        assert(base.union_prefer_right(Map::<Seq<char>, u128>::empty()) =~= base);
        while k < files.len()
            invariant
                k <= files.len(),
                fs == stamp_pairs(files@),
                self@.dir == old(self)@.dir,
                self@.changed_dirs == old(self)@.changed_dirs,
                self@.state == base.union_prefer_right(pairs_map(fs.subrange(0, k as int))),
            decreases files.len() - k,
        {
            let ghost prev = self@.state;
            self.add(files[k].0.as_str(), files[k].1);
            proof {
                assert(fs.subrange(0, k + 1).drop_last() =~= fs.subrange(0, k as int));
                assert(self@.state =~= base.union_prefer_right(
                    pairs_map(fs.subrange(0, k + 1)),
                ));
            }
            k = k + 1;
        }
        assert(fs.subrange(0, files.len() as int) =~= fs);
    }

    /// Rebaselines each of `changes` in turn.
    pub fn scan_each(&mut self, changes: &Vec<String>, tree: &Vec<DirListing>)
        ensures
            final(self)@ == (FileWatcherView {
                state: rebaseline_all(old(self)@.state, views(changes@), tree@),
                ..old(self)@
            }),
    {
        let mut i: usize = 0;
        while i < changes.len()
            invariant
                i <= changes.len(),
                self@ == (FileWatcherView {
                    state: rebaseline_all(
                        old(self)@.state,
                        views(changes@.subrange(0, i as int)),
                        tree@,
                    ),
                    ..old(self)@
                }),
            decreases changes.len() - i,
        {
            self.scan(Some(changes[i].as_str()), tree);
            proof {
                assert(views(changes@.subrange(0, i + 1)).drop_last() =~= views(
                    changes@.subrange(0, i as int),
                ));
            }
            i = i + 1;
        }
        assert(changes@.subrange(0, changes.len() as int) =~= changes@);
    }
}

} // verus!
