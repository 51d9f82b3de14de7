//! The site index: every model under its own path, with lookups by path, identifier, kind and
//! language.
use crate::cms::model::{path_of, uuid_of, Model, ModelKind, ModelView};
use crate::keyed::{
    keys_unique, lemma_pairs_at, lemma_pairs_dom, lemma_pairs_len, lemma_pairs_push,
    lemma_pairs_remove, lemma_pairs_update, pairs_map,
};
use crate::text::{
    is_within, is_within_str, parent_path, parent_path_str, same_str, starts_with,
    starts_with_str, strip_one_slash, strip_one_slash_str,
};
use vstd::prelude::*;

verus! {

/// A site as plain values: its directory, its base URL, and its models by path.
pub struct SiteView {
    pub dir: Seq<char>,
    pub url: Seq<char>,
    pub models: Map<Seq<char>, ModelView>,
}

/// The index of all models of a site. Each model is held under its own path.
#[derive(Debug)]
pub struct Site {
    dir: String,
    url: String,
    entries: Vec<(String, Model)>,
}

/// Builds a site one property at a time.
#[derive(Debug, Clone)]
pub struct SiteBuilder {
    dir: String,
    url: String,
    models: Vec<Model>,
}

/// The views of a sequence of models.
pub open spec fn model_views(models: Seq<Model>) -> Seq<ModelView> {
    models.map_values(|m: Model| m@)
}

/// Each entry as a pair of its key and its model.
pub open spec fn entry_pairs(entries: Seq<(String, Model)>) -> Seq<(Seq<char>, ModelView)> {
    entries.map_values(|e: (String, Model)| (e.0@, e.1@))
}

/// The index that a sequence of models spells: each under its path, a later model winning over
/// an earlier one of the same path.
pub open spec fn models_index(models: Seq<ModelView>) -> Map<Seq<char>, ModelView> {
    pairs_map(models.map_values(|m: ModelView| (path_of(m), m)))
}

/// Every model of the index is held under its own path.
pub open spec fn keyed_by_path(models: Map<Seq<char>, ModelView>) -> bool {
    forall|k: Seq<char>| #[trigger] models.contains_key(k) ==> path_of(models[k]) == k
}

/// `m` is one of the models of the index.
pub open spec fn holds_model(models: Map<Seq<char>, ModelView>, m: ModelView) -> bool {
    exists|k: Seq<char>| models.contains_key(k) && models[k] == m
}

pub open spec fn opt_view(o: Option<&str>) -> Option<Seq<char>> {
    match o {
        Some(s) => Some(s@),
        None => None,
    }
}

pub open spec fn model_view(o: Option<&Model>) -> Option<ModelView> {
    match o {
        Some(m) => Some(m@),
        None => None,
    }
}

/// `m` is in language `lang`, when one is asked for.
pub open spec fn in_language(m: ModelView, lang: Option<Seq<char>>) -> bool {
    match lang {
        Some(l) => m.language == l,
        None => true,
    }
}

/// `m` answers to `search` by its path or by its `uuid` field.
pub open spec fn answers(m: ModelView, search: Seq<char>) -> bool {
    path_of(m) == search || uuid_of(m) == search
}

pub open spec fn is_root_for(m: ModelView, lang: Option<Seq<char>>) -> bool {
    m.kind == ModelKind::Site && in_language(m, lang)
}

pub open spec fn is_page_for(m: ModelView, search: Seq<char>, lang: Option<Seq<char>>) -> bool {
    m.kind == ModelKind::Page && answers(m, search) && in_language(m, lang)
}

pub open spec fn is_file_for(m: ModelView, search: Seq<char>) -> bool {
    m.kind == ModelKind::File && answers(m, search)
}

/// `m` lies below `of`: its path begins with the path of `of` and is another path.
pub open spec fn is_child_of(m: ModelView, of: ModelView) -> bool {
    starts_with(path_of(m), path_of(of)) && path_of(m) != path_of(of)
}

/// A model whose source file lies inside `dir` and is not among `kept`.
pub open spec fn is_stale(m: ModelView, dir: Seq<char>, kept: Seq<Seq<char>>) -> bool {
    is_within(m.root, dir) && !kept.contains(m.root)
}

/// `found` is a model of `models` for which `query` holds, or there is none.
pub open spec fn picks(
    models: Map<Seq<char>, ModelView>,
    found: Option<ModelView>,
    query: spec_fn(ModelView) -> bool,
) -> bool {
    match found {
        Some(m) => holds_model(models, m) && query(m),
        None => forall|k: Seq<char>| models.contains_key(k) ==> !query(#[trigger] models[k]),
    }
}

/// The index with `m` put under its path, keeping the fields of a model already there that `m`
/// lacks.
pub open spec fn upserted(models: Map<Seq<char>, ModelView>, m: ModelView) -> Map<
    Seq<char>,
    ModelView,
> {
    let k = path_of(m);
    models.insert(
        k,
        if models.contains_key(k) {
            ModelView { content: models[k].content.union_prefer_right(m.content), ..m }
        } else {
            m
        },
    )
}

/// Putting a model in again keeps every field: the model under its path afterwards has each field
/// of the model that was there and each field of the new one, the new one's values winning.
pub proof fn lemma_upsert_keeps_fields(models: Map<Seq<char>, ModelView>, m: ModelView)
    ensures
        ({
            let k = path_of(m);
            let after = upserted(models, m)[k];
            &&& upserted(models, m).contains_key(k)
            &&& forall|name: Seq<char>| #[trigger]
                m.content.contains_key(name) ==> after.content.contains_key(name)
                    && after.content[name] == m.content[name]
            &&& models.contains_key(k) ==> forall|name: Seq<char>| #[trigger]
                models[k].content.contains_key(name) ==> after.content.contains_key(name)
        }),
{
}

/// The index without the models whose source file lies inside `dir` and is not among `kept`.
pub open spec fn pruned(
    models: Map<Seq<char>, ModelView>,
    dir: Seq<char>,
    kept: Seq<Seq<char>>,
) -> Map<Seq<char>, ModelView> {
    models.restrict(Set::new(|k: Seq<char>| !is_stale(models[k], dir, kept)))
}

/// The source file and its modification time of each model.
pub open spec fn stamps_of(models: Map<Seq<char>, ModelView>) -> Set<(Seq<char>, u128)> {
    Set::new(
        |p: (Seq<char>, u128)|
            exists|k: Seq<char>|
                models.contains_key(k) && p == (models[k].root, models[k].last_modified),
    )
}

/// The default base URL.
pub open spec fn default_url() -> Seq<char> {
    "http://localhost:8000/"@
}

/// What a lookup asks for.
enum Query<'a> {
    Root(Option<&'a str>),
    Page(&'a str, Option<&'a str>),
    File(&'a str),
    Any(&'a str),
    DirPath(&'a str),
}

spec fn query_holds(q: Query, m: ModelView) -> bool {
    match q {
        Query::Root(l) => is_root_for(m, opt_view(l)),
        Query::Page(s, l) => is_page_for(m, s@, opt_view(l)),
        Query::File(s) => is_file_for(m, s@),
        Query::Any(s) => answers(m, s@),
        Query::DirPath(p) => m.path == p@,
    }
}

fn in_language_exec(m: &Model, lang: Option<&str>) -> (r: bool)
    ensures
        r == in_language(m@, opt_view(lang)),
{
    match lang {
        Some(l) => same_str(m.language(), l),
        None => true,
    }
}

fn answers_exec(m: &Model, search: &str) -> (r: bool)
    ensures
        r == answers(m@, search@),
{
    let path = m.path();
    same_str(path.as_str(), search) || same_str(m.uuid(), search)
}

fn query_matches(q: &Query, m: &Model) -> (r: bool)
    ensures
        r == query_holds(*q, m@),
{
    match q {
        Query::Root(l) => *m.kind() == ModelKind::Site && in_language_exec(m, *l),
        Query::Page(s, l) => *m.kind() == ModelKind::Page && answers_exec(m, s) && in_language_exec(
            m,
            *l,
        ),
        Query::File(s) => *m.kind() == ModelKind::File && answers_exec(m, s),
        Query::Any(s) => answers_exec(m, s),
        Query::DirPath(p) => same_str(m.dir_path(), p),
    }
}

impl View for Site {
    type V = SiteView;

    closed spec fn view(&self) -> SiteView {
        SiteView { dir: self.dir@, url: self.url@, models: pairs_map(entry_pairs(self.entries@)) }
    }
}

impl Site {
    #[verifier::type_invariant]
    spec fn well_keyed(&self) -> bool {
        &&& keys_unique(entry_pairs(self.entries@))
        &&& forall|i: int|
            0 <= i < self.entries.len() ==> #[trigger] self.entries@[i].0@ == path_of(
                self.entries@[i].1@,
            )
    }

    /// The index holds entry `i` under its key, and every key is the path of its model.
    proof fn lemma_entries(&self)
        requires
            self.well_keyed(),
        ensures
            keyed_by_path(self@.models),
            self@.models.dom().finite(),
            self@.models.len() == self.entries.len(),
            forall|i: int|
                0 <= i < self.entries.len() ==> self@.models.contains_key(
                    #[trigger] self.entries@[i].0@,
                ) && self@.models[self.entries@[i].0@] == self.entries@[i].1@,
            forall|k: Seq<char>| #[trigger]
                self@.models.contains_key(k) ==> exists|i: int|
                    0 <= i < self.entries.len() && self.entries@[i].0@ == k,
    {
        let s = entry_pairs(self.entries@);
        lemma_pairs_len(s);
        assert forall|i: int| 0 <= i < self.entries.len() implies self@.models.contains_key(
            #[trigger] self.entries@[i].0@,
        ) && self@.models[self.entries@[i].0@] == self.entries@[i].1@ by {
            lemma_pairs_at(s, i);
        }
        assert forall|k: Seq<char>| #[trigger] self@.models.contains_key(k) implies exists|i: int|
            0 <= i < self.entries.len() && self.entries@[i].0@ == k by {
            lemma_pairs_dom(s, k);
            let i = choose|i: int| 0 <= i < s.len() && s[i].0 == k;
            assert(self.entries@[i].0@ == k);
        }
        assert forall|k: Seq<char>| #[trigger] self@.models.contains_key(k) implies path_of(
            self@.models[k],
        ) == k by {
            lemma_pairs_dom(s, k);
            let i = choose|i: int| 0 <= i < s.len() && s[i].0 == k;
            lemma_pairs_at(s, i);
            assert(self.entries@[i].0@ == path_of(self.entries@[i].1@));
        }
    }

    /// An empty site with no directory and the default base URL.
    pub fn stub() -> (r: Site)
        ensures
            r@.dir.len() == 0,
            r@.url == default_url(),
            r@.models == Map::<Seq<char>, ModelView>::empty(),
    {
        let r = Site {
            dir: String::new(),
            url: "http://localhost:8000/".to_owned(),
            entries: Vec::new(),
        };
        assert(r@.models =~= Map::empty());
        r
    }

    /// A site of `models`, each under its own path (of two with one path the later is kept), in
    /// `dir` (no directory when absent) with base URL `url` (the default when absent).
    pub fn new(models: Option<Vec<Model>>, dir: Option<&str>, url: Option<&str>) -> (r: Site)
        ensures
            r@.dir == match dir {
                Some(d) => d@,
                None => Seq::<char>::empty(),
            },
            r@.url == match url {
                Some(u) => u@,
                None => default_url(),
            },
            r@.models == match models {
                Some(v) => models_index(model_views(v@)),
                None => Map::<Seq<char>, ModelView>::empty(),
            },
            keyed_by_path(r@.models),
    {
        let dir = match dir {
            Some(d) => d.to_owned(),
            None => String::new(),
        };
        let url = match url {
            Some(u) => u.to_owned(),
            None => "http://localhost:8000/".to_owned(),
        };
        let mut site = Site { dir, url, entries: Vec::new() };
        assert(site@.models =~= Map::empty());
        match models {
            Some(v) => {
                let ghost views = model_views(v@);
                let ghost pairs = views.map_values(|m: ModelView| (path_of(m), m));
                let mut i: usize = 0;
                assert(pairs.subrange(0, 0) =~= Seq::<(Seq<char>, ModelView)>::empty());
                while i < v.len()
                    invariant
                        i <= v.len(),
                        views == model_views(v@),
                        pairs == views.map_values(|m: ModelView| (path_of(m), m)),
                        site@.models == pairs_map(pairs.subrange(0, i as int)),
                        site@.dir == dir@,
                        site@.url == url@,
                    decreases v.len() - i,
                {
                    let m = v[i].copy();
                    site.insert(m);
                    assert(pairs.subrange(0, i + 1).drop_last() =~= pairs.subrange(0, i as int));
                    i = i + 1;
                }
                assert(pairs.subrange(0, v.len() as int) =~= pairs);
            },
            None => {},
        }
        proof {
            use_type_invariant(&site);
            site.lemma_entries();
        }
        site
    }

    /// A deep copy.
    pub fn copy(&self) -> (r: Site)
        ensures
            r@ == self@,
    {
        proof {
            use_type_invariant(self);
        }
        let ghost s = entry_pairs(self.entries@);
        let mut entries: Vec<(String, Model)> = Vec::new();
        let mut i: usize = 0;
        while i < self.entries.len()
            invariant
                i <= self.entries.len(),
                s == entry_pairs(self.entries@),
                entry_pairs(entries@) == s.subrange(0, i as int),
            decreases self.entries.len() - i,
        {
            let ghost prev = entries@;
            entries.push((self.entries[i].0.clone(), self.entries[i].1.copy()));
            assert(entry_pairs(entries@) =~= entry_pairs(prev).push(s[i as int]));
            assert(s.subrange(0, i + 1) =~= s.subrange(0, i as int).push(s[i as int]));
            i = i + 1;
        }
        assert(s.subrange(0, self.entries.len() as int) =~= s);
        assert(entry_pairs(entries@) == s);
        assert forall|j: int| 0 <= j < entries.len() implies #[trigger] entries@[j].0@ == path_of(
            entries@[j].1@,
        ) by {
            assert(entry_pairs(entries@)[j] == s[j]);
            assert(self.entries@[j].0@ == path_of(self.entries@[j].1@));
        }
        Site { dir: self.dir.clone(), url: self.url.clone(), entries }
    }

    /// The directory of the site.
    pub fn dir(&self) -> (r: &str)
        ensures
            r@ == self@.dir,
    {
        self.dir.as_str()
    }

    /// The base URL of the site.
    pub fn url(&self) -> (r: &str)
        ensures
            r@ == self@.url,
    {
        self.url.as_str()
    }

    /// The number of models.
    pub fn len(&self) -> (r: usize)
        ensures
            r == self@.models.len(),
    {
        proof {
            use_type_invariant(self);
            self.lemma_entries();
        }
        self.entries.len()
    }

    /// The position of the entry under `key`.
    fn position(&self, key: &str) -> (r: Option<usize>)
        ensures
            match r {
                Some(i) => i < self.entries.len() && self.entries@[i as int].0@ == key@,
                None => forall|i: int|
                    0 <= i < self.entries.len() ==> self.entries@[i].0@ != key@,
            },
    {
        let mut i: usize = 0;
        while i < self.entries.len()
            invariant
                i <= self.entries.len(),
                forall|j: int| 0 <= j < i ==> self.entries@[j].0@ != key@,
            decreases self.entries.len() - i,
        {
            if same_str(self.entries[i].0.as_str(), key) {
                return Some(i);
            }
            i = i + 1;
        }
        None
    }

    /// The model under `key`.
    pub fn get(&self, key: &str) -> (r: Option<&Model>)
        ensures
            match r {
                Some(m) => self@.models.contains_key(key@) && m@ == self@.models[key@],
                None => !self@.models.contains_key(key@),
            },
    {
        proof {
            use_type_invariant(self);
            self.lemma_entries();
        }
        match self.position(key) {
            Some(i) => Some(&self.entries[i].1),
            None => None,
        }
    }

    /// Puts `model` under its path, in place of any model there.
    pub fn insert(&mut self, model: Model)
        ensures
            final(self)@ == (SiteView {
                models: old(self)@.models.insert(path_of(model@), model@),
                ..old(self)@
            }),
            keyed_by_path(final(self)@.models),
    {
        proof {
            use_type_invariant(&*self);
        }
        let key = model.path();
        let ghost before = self.entries@;
        let ghost pair = (key@, model@);
        assert(forall|j: int| 0 <= j < before.len() ==> #[trigger] before[j].0@ == path_of(before[j].1@));
        match self.position(key.as_str()) {
            Some(i) => {
                let mut entries = Vec::new();
                std::mem::swap(&mut entries, &mut self.entries);
                entries.set(i, (key, model));
                proof {
                    lemma_pairs_update(entry_pairs(before), i as int, pair);
                    assert(entry_pairs(entries@) =~= entry_pairs(before).update(i as int, pair));
                    assert forall|j: int| 0 <= j < entries.len() implies #[trigger] entries@[j].0@
                        == path_of(entries@[j].1@) by {
                        if j != i {
                            assert(entries@[j] == before[j]);
                            assert(before[j].0@ == path_of(before[j].1@));
                        }
                    }
                }
                self.entries = entries;
            },
            None => {
                let mut entries = Vec::new();
                std::mem::swap(&mut entries, &mut self.entries);
                entries.push((key, model));
                proof {
                    lemma_pairs_push(entry_pairs(before), pair);
                    assert(entry_pairs(entries@) =~= entry_pairs(before).push(pair));
                    assert forall|j: int| 0 <= j < entries.len() implies #[trigger] entries@[j].0@
                        == path_of(entries@[j].1@) by {
                        if j < before.len() {
                            assert(entries@[j] == before[j]);
                            assert(before[j].0@ == path_of(before[j].1@));
                        }
                    }
                }
                self.entries = entries;
            },
        }
        proof {
            use_type_invariant(&*self);
            self.lemma_entries();
        }
    }

    /// Puts `model` under its path; where a model is there already, the fields of that model
    /// that `model` lacks are kept.
    pub fn upsert(&mut self, model: Model)
        ensures
            final(self)@ == (SiteView { models: upserted(old(self)@.models, model@), ..old(self)@ }),
            keyed_by_path(final(self)@.models),
    {
        let key = model.path();
        let mut model = model;
        match self.get(key.as_str()) {
            Some(earlier) => {
                model.inherit_content(earlier);
            },
            None => {},
        }
        self.insert(model);
    }

    /// Takes out the model under `key`.
    pub fn remove(&mut self, key: &str) -> (r: Option<Model>)
        ensures
            final(self)@ == (SiteView { models: old(self)@.models.remove(key@), ..old(self)@ }),
            match r {
                Some(m) => old(self)@.models.contains_key(key@) && m@ == old(self)@.models[key@],
                None => !old(self)@.models.contains_key(key@),
            },
            keyed_by_path(final(self)@.models),
    {
        proof {
            use_type_invariant(&*self);
            self.lemma_entries();
        }
        let ghost before = self.entries@;
        assert(forall|j: int| 0 <= j < before.len() ==> #[trigger] before[j].0@ == path_of(before[j].1@));
        let r = match self.position(key) {
            Some(i) => {
                let mut entries = Vec::new();
                std::mem::swap(&mut entries, &mut self.entries);
                let (_, m) = entries.remove(i);
                proof {
                    lemma_pairs_remove(entry_pairs(before), i as int);
                    assert(entry_pairs(entries@) =~= entry_pairs(before).remove(i as int));
                    assert forall|j: int| 0 <= j < entries.len() implies #[trigger] entries@[j].0@
                        == path_of(entries@[j].1@) by {
                        let sj = if j < i {
                            j
                        } else {
                            j + 1
                        };
                        assert(entries@[j] == before[sj]);
                        assert(before[sj].0@ == path_of(before[sj].1@));
                    }
                }
                self.entries = entries;
                Some(m)
            },
            None => {
                assert(self@.models.remove(key@) =~= self@.models);
                None
            },
        };
        proof {
            use_type_invariant(&*self);
            self.lemma_entries();
        }
        r
    }

    /// Drops every model whose source file lies inside `dir` and is not among `kept`: the files
    /// that a reload of `dir` no longer found.
    pub fn prune(&mut self, dir: &str, kept: &Vec<String>)
        ensures
            final(self)@ == (SiteView {
                models: pruned(old(self)@.models, dir@, kept@.map_values(|s: String| s@)),
                ..old(self)@
            }),
            keyed_by_path(final(self)@.models),
    {
        proof {
            use_type_invariant(&*self);
        }
        let ghost kept_views = kept@.map_values(|s: String| s@);
        let ghost s = entry_pairs(self.entries@);
        let ghost target = Set::new(|k: Seq<char>| !is_stale(self@.models[k], dir@, kept_views));
        let mut out: Vec<(String, Model)> = Vec::new();
        let mut i: usize = 0;
        while i < self.entries.len()
            invariant
                i <= self.entries.len(),
                s == entry_pairs(self.entries@),
                keys_unique(s),
                forall|j: int|
                    0 <= j < self.entries.len() ==> #[trigger] self.entries@[j].0@ == path_of(
                        self.entries@[j].1@,
                    ),
                kept_views == kept@.map_values(|s: String| s@),
                keys_unique(entry_pairs(out@)),
                forall|j: int|
                    0 <= j < out.len() ==> #[trigger] out@[j].0@ == path_of(out@[j].1@),
                pairs_map(entry_pairs(out@)) == pairs_map(s.subrange(0, i as int)).restrict(
                    Set::new(
                        |k: Seq<char>|
                            !is_stale(pairs_map(s.subrange(0, i as int))[k], dir@, kept_views),
                    ),
                ),
            decreases self.entries.len() - i,
        {
            let ghost pre = pairs_map(s.subrange(0, i as int));
            let ghost post = pairs_map(s.subrange(0, i + 1));
            proof {
                assert(s.subrange(0, i + 1).drop_last() =~= s.subrange(0, i as int));
                assert(post == pre.insert(s[i as int].0, s[i as int].1));
                lemma_pairs_dom(s.subrange(0, i as int), s[i as int].0);
                if pre.contains_key(s[i as int].0) {
                    let j = choose|j: int| 0 <= j < i && s.subrange(0, i as int)[j].0 == s[i as int].0;
                    assert(s[j].0 == s[i as int].0);
                }
            }
            let root = self.entries[i].1.root();
            let mut keep = true;
            if is_within_str(root.as_str(), dir) {
                let mut found = false;
                let mut j: usize = 0;
                while j < kept.len()
                    invariant
                        j <= kept.len(),
                        kept_views == kept@.map_values(|s: String| s@),
                        found == exists|l: int| 0 <= l < j && kept_views[l] == root@,
                    decreases kept.len() - j,
                {
                    assert(kept_views[j as int] == kept@[j as int]@);
                    if same_str(kept[j].as_str(), root.as_str()) {
                        found = true;
                    }
                    j = j + 1;
                }
                keep = found;
            }
            assert(keep == !is_stale(s[i as int].1, dir@, kept_views));
            if keep {
                let ghost before = entry_pairs(out@);
                proof {
                    assert forall|j: int| 0 <= j < before.len() implies before[j].0 != s[i as int].0 by {
                        lemma_pairs_dom(before, before[j].0);
                    }
                    lemma_pairs_push(before, s[i as int]);
                }
                let ghost prev_out = out@;
                assert(forall|j: int| 0 <= j < prev_out.len() ==> #[trigger] prev_out[j].0@ == path_of(prev_out[j].1@));
                out.push((self.entries[i].0.clone(), self.entries[i].1.copy()));
                proof {
                    assert forall|j: int| 0 <= j < out.len() implies #[trigger] out@[j].0@
                        == path_of(out@[j].1@) by {
                        if j < prev_out.len() {
                            assert(out@[j] == prev_out[j]);
                            assert(prev_out[j].0@ == path_of(prev_out[j].1@));
                        } else {
                            assert(self.entries@[i as int].0@ == path_of(self.entries@[i as int].1@));
                        }
                    }
                    assert(entry_pairs(out@) =~= before.push(s[i as int]));
                    assert(pairs_map(entry_pairs(out@)) =~= post.restrict(
                        Set::new(|k: Seq<char>| !is_stale(post[k], dir@, kept_views)),
                    ));
                }
            } else {
                proof {
                    assert(pairs_map(entry_pairs(out@)) =~= post.restrict(
                        Set::new(|k: Seq<char>| !is_stale(post[k], dir@, kept_views)),
                    ));
                }
            }
            i = i + 1;
        }
        proof {
            assert(s.subrange(0, self.entries.len() as int) =~= s);
        }
        self.entries = out;
        proof {
            use_type_invariant(&*self);
            self.lemma_entries();
        }
    }

    /// Whether a load is due: when nothing is loaded yet, or when something changed.
    pub fn should_load(&self, changes: &Vec<String>) -> (r: bool)
        ensures
            r == (self@.models.len() == 0 || changes@.len() > 0),
    {
        self.len() == 0 || changes.len() > 0
    }

    /// The source file and its modification time of each model.
    pub fn state(&self) -> (r: Vec<(String, u128)>)
        ensures
            r@.map_values(|p: (String, u128)| (p.0@, p.1)).to_set() == stamps_of(self@.models),
    {
        proof {
            use_type_invariant(self);
            self.lemma_entries();
        }
        let mut r: Vec<(String, u128)> = Vec::new();
        let mut i: usize = 0;
        while i < self.entries.len()
            invariant
                i <= self.entries.len(),
                r.len() == i,
                forall|j: int|
                    0 <= j < i ==> (#[trigger] r@[j]).0@ == self.entries@[j].1@.root && r@[j].1
                        == self.entries@[j].1@.last_modified,
            decreases self.entries.len() - i,
        {
            let m = &self.entries[i].1;
            r.push((m.root(), m.last_modified()));
            i = i + 1;
        }
        let ghost seen = r@.map_values(|p: (String, u128)| (p.0@, p.1));
        assert forall|p: (Seq<char>, u128)| seen.to_set().contains(p) <==> stamps_of(
            self@.models,
        ).contains(p) by {
            if seen.to_set().contains(p) {
                let j = choose|j: int| 0 <= j < seen.len() && seen[j] == p;
                assert(r@[j].0@ == self.entries@[j].1@.root);
                let k = self.entries@[j].0@;
                assert(self@.models.contains_key(k));
            }
            if stamps_of(self@.models).contains(p) {
                let k = choose|k: Seq<char>|
                    self@.models.contains_key(k) && p == (
                        self@.models[k].root,
                        self@.models[k].last_modified,
                    );
                let j = choose|j: int| 0 <= j < self.entries.len() && self.entries@[j].0@ == k;
                assert(r@[j].0@ == self.entries@[j].1@.root);
                assert(seen[j] == p);
            }
        }
        assert(seen.to_set() =~= stamps_of(self@.models));
        r
    }

    /// The first model, in the order of entries, for which `q` holds.
    fn scan<'a>(&'a self, q: &Query) -> (r: Option<&'a Model>)
        ensures
            match r {
                Some(m) => holds_model(self@.models, m@) && query_holds(*q, m@),
                None => forall|k: Seq<char>| #[trigger]
                    self@.models.contains_key(k) ==> !query_holds(*q, self@.models[k]),
            },
    {
        proof {
            use_type_invariant(self);
            self.lemma_entries();
        }
        let mut i: usize = 0;
        while i < self.entries.len()
            invariant
                i <= self.entries.len(),
                forall|j: int| 0 <= j < i ==> !query_holds(*q, (#[trigger] self.entries@[j]).1@),
            decreases self.entries.len() - i,
        {
            if query_matches(q, &self.entries[i].1) {
                proof {
                    use_type_invariant(self);
                    self.lemma_entries();
                    let k = self.entries@[i as int].0@;
                    assert(self@.models.contains_key(k));
                }
                return Some(&self.entries[i].1);
            }
            i = i + 1;
        }
        proof {
            use_type_invariant(self);
            self.lemma_entries();
        }
        assert forall|k: Seq<char>| #[trigger] self@.models.contains_key(k) implies !query_holds(
            *q,
            self@.models[k],
        ) by {
            let j = choose|j: int| 0 <= j < self.entries.len() && self.entries@[j].0@ == k;
            assert(self@.models[self.entries@[j].0@] == self.entries@[j].1@);
        }
        None
    }

    /// A site root model, in language `lang` when one is given.
    pub fn model(&self, lang: Option<&str>) -> (r: Option<&Model>)
        ensures
            picks(self@.models, model_view(r), |m: ModelView| is_root_for(m, opt_view(lang))),
    {
        self.scan(&Query::Root(lang))
    }

    /// The page at path `search` (one `/` removed at each end), or with that `uuid`. With a
    /// language, a page in that language; without one, the model under that path whatever its
    /// kind, else a page.
    pub fn page(&self, search: &str, lang: Option<&str>) -> (r: Option<&Model>)
        ensures
            ({
                let s = strip_one_slash(search@);
                match lang {
                    Some(l) => picks(
                        self@.models,
                        model_view(r),
                        |m: ModelView| is_page_for(m, s, Some(l@)),
                    ),
                    None => if self@.models.contains_key(s) {
                        model_view(r) == Some(self@.models[s])
                    } else {
                        picks(self@.models, model_view(r), |m: ModelView| is_page_for(m, s, None))
                    },
                }
            }),
    {
        let search = strip_one_slash_str(search);
        match lang {
            Some(l) => self.scan(&Query::Page(search.as_str(), Some(l))),
            None => match self.get(search.as_str()) {
                Some(m) => Some(m),
                None => self.scan(&Query::Page(search.as_str(), None)),
            },
        }
    }

    /// The file at path `search` (one `/` removed at each end), or with that `uuid`; the
    /// file under that path first.
    pub fn file(&self, search: &str) -> (r: Option<&Model>)
        ensures
            ({
                let s = strip_one_slash(search@);
                if self@.models.contains_key(s) && self@.models[s].kind == ModelKind::File {
                    model_view(r) == Some(self@.models[s])
                } else {
                    picks(self@.models, model_view(r), |m: ModelView| is_file_for(m, s))
                }
            }),
    {
        let search = strip_one_slash_str(search);
        match self.get(search.as_str()) {
            Some(m) => {
                if *m.kind() == ModelKind::File {
                    return Some(m);
                }
            },
            None => {},
        }
        self.scan(&Query::File(search.as_str()))
    }

    /// The model at path `search` (one `/` removed at each end), or else one with that
    /// `uuid`.
    pub fn find(&self, search: &str) -> (r: Option<&Model>)
        ensures
            ({
                let s = strip_one_slash(search@);
                if self@.models.contains_key(s) {
                    model_view(r) == Some(self@.models[s])
                } else {
                    picks(self@.models, model_view(r), |m: ModelView| answers(m, s))
                }
            }),
    {
        let search = strip_one_slash_str(search);
        match self.get(search.as_str()) {
            Some(m) => Some(m),
            None => self.scan(&Query::Any(search.as_str())),
        }
    }
}

impl Clone for Site {
    fn clone(&self) -> (r: Site)
        ensures
            r@ == self@,
    {
        self.copy()
    }
}

impl View for SiteBuilder {
    type V = SiteView;

    closed spec fn view(&self) -> SiteView {
        SiteView { dir: self.dir@, url: self.url@, models: models_index(model_views(self.models@)) }
    }
}

/// A deep copy of a list of models.
fn copy_models(v: &Vec<Model>) -> (r: Vec<Model>)
    ensures
        model_views(r@) == model_views(v@),
{
    let mut r: Vec<Model> = Vec::new();
    let mut i: usize = 0;
    while i < v.len()
        invariant
            i <= v.len(),
            model_views(r@) == model_views(v@.subrange(0, i as int)),
        decreases v.len() - i,
    {
        let ghost prev = r@;
        r.push(v[i].copy());
        assert(model_views(r@) =~= model_views(prev).push(v@[i as int]@));
        assert(model_views(v@.subrange(0, i + 1)) =~= model_views(v@.subrange(0, i as int)).push(
            v@[i as int]@,
        ));
        i = i + 1;
    }
    assert(v@.subrange(0, v.len() as int) =~= v@);
    r
}

impl SiteBuilder {
    /// A builder of an empty site with no directory and the default base URL.
    pub fn new() -> (r: SiteBuilder)
        ensures
            r@.dir.len() == 0,
            r@.url == default_url(),
            r@.models == Map::<Seq<char>, ModelView>::empty(),
    {
        let r = SiteBuilder {
            dir: String::new(),
            url: "http://localhost:8000/".to_owned(),
            models: Vec::new(),
        };
        assert(model_views(r.models@) =~= Seq::empty());
        assert(r@.models =~= Map::empty());
        r
    }

    pub fn url(&mut self, url: &str) -> (r: &mut Self)
        ensures
            r@ == (SiteView { url: url@, ..old(self)@ }),
            *final(self) == *final(r),
    {
        self.url = url.to_owned();
        self
    }

    pub fn dir(&mut self, dir: &str) -> (r: &mut Self)
        ensures
            r@ == (SiteView { dir: dir@, ..old(self)@ }),
            *final(self) == *final(r),
    {
        self.dir = dir.to_owned();
        self
    }

    /// Sets the models; each goes under its own path, a later one winning over an earlier one
    /// of the same path.
    pub fn models(&mut self, models: Vec<Model>) -> (r: &mut Self)
        ensures
            r@ == (SiteView { models: models_index(model_views(models@)), ..old(self)@ }),
            *final(self) == *final(r),
    {
        self.models = models;
        self
    }

    pub fn build(&self) -> (r: Site)
        ensures
            r@ == self@,
            keyed_by_path(r@.models),
    {
        Site::new(Some(copy_models(&self.models)), Some(self.dir.as_str()), Some(self.url.as_str()))
    }
}

impl Model {
    /// The model whose directory path is this model's without its last segment.
    pub fn parent(&self, site: &Site) -> (r: Option<Model>)
        ensures
            match r {
                Some(p) => holds_model(site@.models, p@) && p@.path == parent_path(self@.path),
                None => forall|k: Seq<char>| #[trigger]
                    site@.models.contains_key(k) ==> site@.models[k].path != parent_path(
                        self@.path,
                    ),
            },
    {
        let parent = parent_path_str(self.dir_path());
        match site.scan(&Query::DirPath(parent.as_str())) {
            Some(m) => Some(m.copy()),
            None => None,
        }
    }

    /// Every model of `site` whose path begins with this model's path and is another path, each
    /// once.
    pub fn children(&self, site: &Site) -> (r: Vec<Model>)
        ensures
            forall|i: int|
                0 <= i < r.len() ==> holds_model(site@.models, (#[trigger] r@[i])@) && is_child_of(
                    r@[i]@,
                    self@,
                ),
            forall|k: Seq<char>|
                #![trigger site@.models[k]]
                site@.models.contains_key(k) && is_child_of(site@.models[k], self@) ==> exists|
                    i: int,
                | 0 <= i < r.len() && r@[i]@ == site@.models[k],
            forall|i: int, j: int|
                0 <= i < j < r.len() ==> path_of((#[trigger] r@[i])@) != path_of(
                    (#[trigger] r@[j])@,
                ),
    {
        proof {
            use_type_invariant(site);
            site.lemma_entries();
        }
        let own = self.path();
        let mut out: Vec<Model> = Vec::new();
        let ghost mut idx: Seq<int> = Seq::empty();
        let mut i: usize = 0;
        while i < site.entries.len()
            invariant
                i <= site.entries.len(),
                own@ == path_of(self@),
                keys_unique(entry_pairs(site.entries@)),
                forall|j: int|
                    0 <= j < site.entries.len() ==> #[trigger] site.entries@[j].0@ == path_of(
                        site.entries@[j].1@,
                    ),
                forall|j: int|
                    0 <= j < site.entries.len() ==> site@.models.contains_key(
                        #[trigger] site.entries@[j].0@,
                    ) && site@.models[site.entries@[j].0@] == site.entries@[j].1@,
                idx.len() == out.len(),
                forall|a: int|
                    0 <= a < idx.len() ==> 0 <= #[trigger] idx[a] < i && out@[a]@
                        == site.entries@[idx[a]].1@,
                forall|a: int, b: int| 0 <= a < b < idx.len() ==> #[trigger] idx[a] < #[trigger] idx[b],
                forall|a: int| 0 <= a < out.len() ==> is_child_of((#[trigger] out@[a])@, self@),
                forall|j: int|
                    0 <= j < i && is_child_of((#[trigger] site.entries@[j]).1@, self@) ==> exists|
                        a: int,
                    | 0 <= a < idx.len() && idx[a] == j,
            decreases site.entries.len() - i,
        {
            let m = &site.entries[i].1;
            let path = m.path();
            let ghost old_idx = idx;
            if starts_with_str(path.as_str(), own.as_str()) && !same_str(path.as_str(), own.as_str()) {
                out.push(m.copy());
                proof {
                    idx = idx.push(i as int);
                }
            }
            proof {
                assert forall|j: int|
                    0 <= j < i + 1 && is_child_of((#[trigger] site.entries@[j]).1@, self@) implies exists|
                        a: int,
                    | 0 <= a < idx.len() && idx[a] == j by {
                    if j < i {
                        let a = choose|a: int| 0 <= a < old_idx.len() && old_idx[a] == j;
                        assert(idx[a] == j);
                    } else {
                        assert(idx[idx.len() - 1] == j);
                    }
                }
            }
            i = i + 1;
        }
        assert forall|i: int| 0 <= i < out.len() implies holds_model(
            site@.models,
            (#[trigger] out@[i])@,
        ) by {
            let j = idx[i];
            assert(site@.models.contains_key(site.entries@[j].0@));
        }
        assert forall|k: Seq<char>|
            #![trigger site@.models[k]]
            site@.models.contains_key(k) && is_child_of(site@.models[k], self@) implies exists|
                i: int,
            | 0 <= i < out.len() && out@[i]@ == site@.models[k] by {
            let j = choose|j: int| 0 <= j < site.entries.len() && site.entries@[j].0@ == k;
            assert(is_child_of(site.entries@[j].1@, self@));
            let a = choose|a: int| 0 <= a < idx.len() && idx[a] == j;
            assert(out@[a]@ == site@.models[k]);
        }
        assert forall|a: int, b: int| 0 <= a < b < out.len() implies path_of(
            (#[trigger] out@[a])@,
        ) != path_of((#[trigger] out@[b])@) by {
            let ja = idx[a];
            let jb = idx[b];
            assert(entry_pairs(site.entries@)[ja].0 != entry_pairs(site.entries@)[jb].0);
        }
        out
    }
}

} // verus!
