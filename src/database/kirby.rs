//! The flat-file content source: directories of `.txt` files whose names and folders say what
//! each model is, and whose text holds its fields.
use crate::cms::content::Content;
use crate::cms::field::{normal_name, Field};
use crate::cms::model::{Model, ModelBuilder, ModelKind, ModelView};
use crate::cms::site::{pruned, upserted, Site, SiteView};
use crate::database::DatabaseError;
use crate::text::{
    chars_of, contains, contains_str, count_char, file_name, file_name_str, find, find_from_exec,
    join, join_str, last_index_of, last_index_of_exec, parent_path, parent_path_str, same_str,
    slice, split, split_str, starts_with, starts_with_str, trim, trim_slashes, trim_str, views,
};
use crate::watcher::file::{changes_of, DirListing, FileWatcher};
use vstd::prelude::*;

verus! {

/// Whether file names carry a language: `template.language.txt`.
pub const MULTI_LANGUAGE: bool = true;

/// The flat-file content source.
#[derive(Debug)]
pub struct Kirby {}

/// A file read from the content tree: its path, its text and its modification time in
/// nanoseconds since the Unix epoch.
#[derive(Debug, Clone)]
pub struct SourceFile {
    pub path: String,
    pub text: String,
    pub modified: u128,
}

/// The line that separates the sections of a content file.
pub open spec fn section_delimiter() -> Seq<char> {
    seq!['-', '-', '-', '-', '\n']
}

/// The field a section holds: the text before its first `:` is the name, the rest trimmed is
/// the value. A section without `:` holds none.
pub open spec fn section_field(section: Seq<char>) -> Option<(Seq<char>, Seq<char>)> {
    match find(section, seq![':']) {
        Some(i) => Some(
            (
                normal_name(section.subrange(0, i)),
                trim(section.subrange(i + 1, section.len() as int)),
            ),
        ),
        None => None,
    }
}

/// The fields of the sections, a later one winning over an earlier one of the same name.
pub open spec fn sections_content(sections: Seq<Seq<char>>) -> Map<Seq<char>, Seq<char>>
    decreases sections.len(),
{
    if sections.len() == 0 {
        Map::empty()
    } else {
        let before = sections_content(sections.drop_last());
        match section_field(sections.last()) {
            Some(f) => before.insert(f.0, f.1),
            None => before,
        }
    }
}

/// The fields of a content file.
pub open spec fn content_of(text: Seq<char>) -> Map<Seq<char>, Seq<char>> {
    sections_content(split(text, section_delimiter()))
}

/// A folder name without its ordering prefix `N_`; kept whole when it has none, or when nothing
/// follows the `_`.
pub open spec fn strip_order(segment: Seq<char>) -> Seq<char> {
    match find(segment, seq!['_']) {
        Some(i) => if i + 1 < segment.len() {
            segment.subrange(i + 1, segment.len() as int)
        } else {
            segment
        },
        None => segment,
    }
}

/// The part of `s` before the first `c`; all of `s` when there is none.
pub open spec fn before_first(s: Seq<char>, c: char) -> Seq<char> {
    match find(s, seq![c]) {
        Some(i) => s.subrange(0, i),
        None => s,
    }
}

/// The folder path of a file, each folder without its ordering prefix.
pub open spec fn dir_path_of(p: Seq<char>) -> Seq<char> {
    join(split(parent_path(p), seq!['/']).map_values(|s: Seq<char>| strip_order(s)), seq!['/'])
}

/// The ordering prefix of the folder that holds a file; empty when it has none.
pub open spec fn num_prefix_of(p: Seq<char>) -> Seq<char> {
    let folder = file_name(parent_path(p));
    if contains(folder, seq!['_']) {
        before_first(folder, '_')
    } else {
        Seq::empty()
    }
}

/// The template a file names: its file name up to the first `.`.
pub open spec fn template_name(p: Seq<char>) -> Seq<char> {
    before_first(file_name(p), '.')
}

/// The language a file name carries: the next-to-last of its `.`-separated parts.
pub open spec fn language_of(p: Seq<char>) -> Seq<char> {
    let parts = split(file_name(p), seq!['.']);
    if MULTI_LANGUAGE && parts.len() > 1 {
        parts[parts.len() - 2]
    } else {
        Seq::empty()
    }
}

/// The template reserved for the site root.
pub open spec fn site_template() -> Seq<char> {
    seq!['s', 'i', 't', 'e']
}

/// The kind a file stands for: the site root by its template; a file when its name has more
/// dots than template, language and extension account for; a page otherwise.
pub open spec fn kind_of(template: Seq<char>, lang: Seq<char>, name: Seq<char>) -> ModelKind {
    if template == site_template() {
        ModelKind::Site
    } else if lang.len() == 0 && count_char(name, '.') > 1 {
        ModelKind::File
    } else if lang.len() > 0 && count_char(name, '.') > 2 {
        ModelKind::File
    } else {
        ModelKind::Page
    }
}

/// `file` relative to the directory `root`, when it lies there.
pub open spec fn strip_root(root: Seq<char>, file: Seq<char>) -> Option<Seq<char>> {
    if root.len() == 0 {
        Some(file)
    } else if root.last() == '/' {
        if starts_with(file, root) {
            Some(file.subrange(root.len() as int, file.len() as int))
        } else {
            None
        }
    } else if file == root {
        Some(Seq::empty())
    } else if starts_with(file, root + seq!['/']) {
        Some(file.subrange(root.len() + 1 as int, file.len() as int))
    } else {
        None
    }
}

/// The model that the file `file` under the content root `root` stands for.
pub open spec fn model_of(root: Seq<char>, file: Seq<char>, text: Seq<char>, modified: u128) -> Option<
    ModelView,
> {
    match strip_root(root, file) {
        None => None,
        Some(rel) => {
            let template = template_name(rel);
            let lang = language_of(rel);
            let kind = kind_of(template, lang, file_name(rel));
            Some(
                ModelView {
                    num: if kind == ModelKind::File {
                        Seq::empty()
                    } else {
                        num_prefix_of(rel)
                    },
                    kind,
                    language: lang,
                    path: trim_slashes(dir_path_of(rel)),
                    template: if kind == ModelKind::File {
                        Seq::empty()
                    } else {
                        template
                    },
                    content: content_of(text),
                    root: file,
                    last_modified: modified,
                },
            )
        },
    }
}

/// The extension of a file name: what follows its last `.`, unless that `.` begins the name.
pub open spec fn extension(name: Seq<char>) -> Option<Seq<char>> {
    match last_index_of(name, '.') {
        Some(i) => if i == 0 {
            None
        } else {
            Some(name.subrange(i + 1, name.len() as int))
        },
        None => None,
    }
}

/// A content file has the extension `txt`.
pub open spec fn is_content_file(p: Seq<char>) -> bool {
    extension(file_name(p)) == Some(seq!['t', 'x', 't'])
}

/// The folder name that marks stored versions, which loading skips.
pub open spec fn versions_marker() -> Seq<char> {
    seq!['_', 'v', 'e', 'r', 's', 'i', 'o', 'n', 's']
}

/// The index after loading `files` in order: each content file's model is upserted; the first
/// file that lies outside the content root stops the load and is returned.
pub open spec fn loaded(
    models: Map<Seq<char>, ModelView>,
    root: Seq<char>,
    files: Seq<SourceFile>,
) -> (Map<Seq<char>, ModelView>, Option<Seq<char>>)
    decreases files.len(),
{
    if files.len() == 0 {
        (models, None)
    } else {
        let before = loaded(models, root, files.drop_last());
        let f = files.last();
        if before.1 is Some || !is_content_file(f.path@) {
            before
        } else {
            match model_of(root, f.path@, f.text@, f.modified) {
                Some(m) => (upserted(before.0, m), None),
                None => (before.0, Some(f.path@)),
            }
        }
    }
}

/// The paths of the files.
pub open spec fn source_paths(files: Seq<SourceFile>) -> Seq<Seq<char>> {
    files.map_values(|f: SourceFile| f.path@)
}

/// The snapshot a site's models give: each model's source file with its modification time.
pub open spec fn seeded_from(state: Map<Seq<char>, u128>, models: Map<Seq<char>, ModelView>) -> bool {
    &&& forall|p: Seq<char>|
        #[trigger] state.contains_key(p) ==> exists|k: Seq<char>|
            models.contains_key(k) && models[k].root == p && models[k].last_modified == state[p]
    &&& forall|k: Seq<char>| #[trigger]
        models.contains_key(k) ==> state.contains_key(models[k].root)
}

/// `s` without its ordering prefix.
fn strip_order_str(s: &str) -> (r: String)
    ensures
        r@ == strip_order(s@),
{
    let cs = chars_of(s);
    let underscore = vec!['_'];
    assert(underscore@ =~= seq!['_']);
    proof {
        crate::text::lemma_find_from_bounds(s@, seq!['_'], 0);
    }
    match find_from_exec(&cs, &underscore, 0) {
        Some(i) => {
            if i < cs.len() - 1 {
                slice(s, i + 1, cs.len())
            } else {
                s.to_owned()
            }
        },
        None => s.to_owned(),
    }
}

/// The part of `s` before the first `c`.
fn before_first_str(s: &str, c: char) -> (r: String)
    ensures
        r@ == before_first(s@, c),
{
    let cs = chars_of(s);
    let pat = vec![c];
    assert(pat@ =~= seq![c]);
    proof {
        crate::text::lemma_find_from_bounds(s@, seq![c], 0);
    }
    match find_from_exec(&cs, &pat, 0) {
        Some(i) => slice(s, 0, i),
        None => s.to_owned(),
    }
}

/// How often `c` occurs in `s`.
fn count_char_exec(s: &str, c: char) -> (r: usize)
    ensures
        r == count_char(s@, c),
{
    let cs = chars_of(s);
    let mut n: usize = 0;
    let mut i: usize = 0;
    while i < cs.len()
        invariant
            i <= cs.len(),
            cs@ == s@,
            n == count_char(s@.subrange(0, i as int), c),
            n <= i,
        decreases cs.len() - i,
    {
        assert(s@.subrange(0, i + 1).drop_last() =~= s@.subrange(0, i as int));
        if cs[i] == c {
            n = n + 1;
        }
        i = i + 1;
    }
    assert(s@.subrange(0, cs.len() as int) =~= s@);
    n
}

/// `file` relative to the directory `root`.
fn strip_root_str(root: &str, file: &str) -> (r: Option<String>)
    ensures
        match r {
            Some(rel) => strip_root(root@, file@) == Some(rel@),
            None => strip_root(root@, file@) is None,
        },
{
    let rc = chars_of(root);
    let fc = chars_of(file);
    if rc.len() == 0 {
        return Some(file.to_owned());
    }
    if rc[rc.len() - 1] == '/' {
        if starts_with_str(file, root) {
            return Some(slice(file, rc.len(), fc.len()));
        }
        return None;
    }
    if same_str(file, root) {
        return Some(String::new());
    }
    let mut prefix = root.to_owned();
    proof {
        reveal_strlit("/");
    }
    prefix.append("/");
    assert(prefix@ =~= root@ + seq!['/']);
    if starts_with_str(file, prefix.as_str()) {
        assert(prefix@.len() == rc.len() + 1 && prefix@.len() <= fc.len());
        return Some(slice(file, rc.len() + 1, fc.len()));
    }
    None
}

impl Kirby {
    /// The fields of a content file: sections separated by a `----` line, each holding one
    /// `name: value` field.
    pub fn content_from_string(text: &str) -> (r: Content)
        ensures
            r@ == content_of(text@),
    {
        proof {
            reveal_strlit("----\n");
            assert("----\n"@ =~= section_delimiter());
        }
        let sections = split_str(text, "----\n");
        let colon = vec![':'];
        assert(colon@ =~= seq![':']);
        let mut content = Content::new(None);
        assert(content@ =~= Map::empty());
        let ghost secs = views(sections@);
        let mut i: usize = 0;
        while i < sections.len()
            invariant
                i <= sections.len(),
                secs == views(sections@),
                colon@ == seq![':'],
                content@ == sections_content(secs.subrange(0, i as int)),
            decreases sections.len() - i,
        {
            let section = sections[i].as_str();
            let cs = chars_of(section);
            proof {
                assert(secs.subrange(0, i + 1).drop_last() =~= secs.subrange(0, i as int));
                assert(secs.subrange(0, i + 1).last() == section@);
                crate::text::lemma_find_from_bounds(section@, seq![':'], 0);
            }
            match find_from_exec(&cs, &colon, 0) {
                Some(c) => {
                    assert(c + 1 <= cs.len());
                    let name = slice(section, 0, c);
                    let rest = slice(section, c + 1, cs.len());
                    let value = trim_str(rest.as_str());
                    content.insert(Field::new(name.as_str(), Some(value.as_str())));
                },
                None => {},
            }
            i = i + 1;
        }
        assert(secs.subrange(0, sections.len() as int) =~= secs);
        content
    }

    /// The parts of a path relative to the content root: the folder path without ordering
    /// prefixes, the ordering prefix of the innermost folder, the template, the language, and
    /// the file name.
    pub fn extract_components(file_path: &str) -> (r: (String, String, String, String, String))
        ensures
            r.0@ == dir_path_of(file_path@),
            r.1@ == num_prefix_of(file_path@),
            r.2@ == template_name(file_path@),
            r.3@ == language_of(file_path@),
            r.4@ == file_name(file_path@),
    {
        proof {
            reveal_strlit("/");
            assert("/"@ =~= seq!['/']);
            reveal_strlit("_");
            assert("_"@ =~= seq!['_']);
            reveal_strlit(".");
            assert("."@ =~= seq!['.']);
        }
        let folder = parent_path_str(file_path);
        let segments = split_str(folder.as_str(), "/");
        let mut stripped: Vec<String> = Vec::new();
        let mut i: usize = 0;
        while i < segments.len()
            invariant
                i <= segments.len(),
                views(stripped@) == views(segments@).subrange(0, i as int).map_values(
                    |s: Seq<char>| strip_order(s),
                ),
            decreases segments.len() - i,
        {
            let ghost prev = stripped@;
            let piece = strip_order_str(segments[i].as_str());
            stripped.push(piece);
            assert(views(segments@)[i as int] == segments@[i as int]@);
            assert(views(stripped@) =~= views(prev).push(piece@));
            assert(views(stripped@) =~= views(segments@).subrange(0, i + 1).map_values(
                |s: Seq<char>| strip_order(s),
            ));
            i = i + 1;
        }
        assert(views(segments@).subrange(0, segments.len() as int) =~= views(segments@));
        let dir_path = join_str(&stripped, "/");
        let innermost = file_name_str(folder.as_str());
        let num = if contains_str(innermost.as_str(), "_") {
            before_first_str(innermost.as_str(), '_')
        } else {
            String::new()
        };
        let name = file_name_str(file_path);
        let template = before_first_str(name.as_str(), '.');
        let parts = split_str(name.as_str(), ".");
        let lang = if MULTI_LANGUAGE && parts.len() > 1 {
            assert(views(parts@)[parts.len() - 2] == parts@[parts.len() - 2]@);
            parts[parts.len() - 2].clone()
        } else {
            String::new()
        };
        (dir_path, num, template, lang, name)
    }

    /// The model the file `file_path` under the content root `root_path` stands for, with the
    /// fields of `text`; `None` when the file does not lie under the root.
    pub fn model_from_string(root_path: &str, file_path: &str, text: &str, modified: u128) -> (r:
        Option<Model>)
        ensures
            match r {
                Some(m) => model_of(root_path@, file_path@, text@, modified) == Some(m@),
                None => model_of(root_path@, file_path@, text@, modified) is None,
            },
    {
        let content = Self::content_from_string(text);
        let rel = match strip_root_str(root_path, file_path) {
            Some(rel) => rel,
            None => {
                return None;
            },
        };
        let (dir_path, num, template, lang, filename) = Self::extract_components(rel.as_str());
        proof {
            reveal_strlit("site");
            assert("site"@ =~= site_template());
        }
        let dots = count_char_exec(filename.as_str(), '.');
        let kind = if same_str(template.as_str(), "site") {
            ModelKind::Site
        } else if lang.as_str().is_empty() && dots > 1 {
            ModelKind::File
        } else if !lang.as_str().is_empty() && dots > 2 {
            ModelKind::File
        } else {
            ModelKind::Page
        };
        let (num, template) = if kind == ModelKind::File {
            (String::new(), String::new())
        } else {
            (num, template)
        };
        let mut builder = ModelBuilder::new();
        builder.kind(&kind);
        builder.num(num.as_str());
        builder.language(lang.as_str());
        builder.path(dir_path.as_str());
        builder.template(template.as_str());
        builder.content(&content);
        builder.last_modified(modified);
        builder.root(file_path);
        let model = builder.build();
        assert(model@.content =~= content_of(text@));
        Some(model)
    }

    /// Puts the model of `file_path` into `site`, keeping the fields of a model already under
    /// its path that the file lacks; a path error when the file does not lie under the root.
    pub fn add_model_to_site(
        site: &mut Site,
        root_path: &str,
        file_path: &str,
        text: &str,
        modified: u128,
    ) -> (r: Result<(), DatabaseError>)
        ensures
            match model_of(root_path@, file_path@, text@, modified) {
                Some(m) => r is Ok && final(site)@ == (SiteView {
                    models: upserted(old(site)@.models, m),
                    ..old(site)@
                }),
                None => r matches Err(DatabaseError::PathError(p)) && p@ == file_path@
                    && final(site)@ == old(site)@,
            },
    {
        match Self::model_from_string(root_path, file_path, text, modified) {
            Some(model) => {
                site.upsert(model);
                Ok(())
            },
            None => Err(DatabaseError::PathError(file_path.to_owned())),
        }
    }

    /// Whether `path` names a content file.
    pub fn is_content_file(path: &str) -> (r: bool)
        ensures
            r == is_content_file(path@),
    {
        let name = file_name_str(path);
        let cs = chars_of(name.as_str());
        proof {
            crate::text::lemma_last_index_bounds(name@, '.');
            reveal_strlit("txt");
            assert("txt"@ =~= seq!['t', 'x', 't']);
        }
        match last_index_of_exec(&cs, '.') {
            Some(i) => {
                assert(last_index_of(name@, '.') == Some(i as int));
                assert(i < cs.len());
                if i == 0 {
                    false
                } else {
                    let ext = slice(name.as_str(), i + 1, cs.len());
                    same_str(ext.as_str(), "txt")
                }
            },
            None => false,
        }
    }

    /// Whether loading skips the directory `path`: it holds stored versions.
    pub fn skips_directory(path: &str) -> (r: bool)
        ensures
            r == contains(path@, versions_marker()),
    {
        proof {
            reveal_strlit("_versions");
            assert("_versions"@ =~= versions_marker());
        }
        contains_str(path, "_versions")
    }

    /// The content root: the configured one, or else `storage/content` in the site's directory.
    pub fn content_folder_path(site: &Site, configured: Option<&str>) -> (r: String)
        ensures
            r@ == match configured {
                Some(c) => c@,
                None => site@.dir + "/storage/content"@,
            },
    {
        match configured {
            Some(c) => c.to_owned(),
            None => {
                let mut dir = site.dir().to_owned();
                dir.append("/storage/content");
                dir
            },
        }
    }

    /// The directories a load walks: the whole root when nothing is listed as changed, else the
    /// changed directories.
    pub fn dirs_to_load(root_path: &str, changes: &Vec<String>) -> (r: Vec<String>)
        ensures
            views(r@) == if changes@.len() == 0 {
                seq![root_path@]
            } else {
                views(changes@)
            },
    {
        if changes.len() == 0 {
            let r = vec![root_path.to_owned()];
            assert(views(r@) =~= seq![root_path@]);
            r
        } else {
            let mut r: Vec<String> = Vec::new();
            let mut i: usize = 0;
            while i < changes.len()
                invariant
                    i <= changes.len(),
                    r@ == changes@.subrange(0, i as int),
                decreases changes.len() - i,
            {
                r.push(changes[i].clone());
                i = i + 1;
            }
            assert(changes@.subrange(0, changes.len() as int) =~= changes@);
            r
        }
    }

    /// Loads the files read from the directory `dir` of the content tree at `root_path`: the
    /// model of each content file is upserted in order, and then the models of files inside
    /// `dir` that are no longer there are dropped. The first file outside the root stops the
    /// load with a path error, leaving what was loaded before it.
    pub fn load_files(site: &mut Site, root_path: &str, dir: &str, files: &Vec<SourceFile>) -> (r:
        Result<(), DatabaseError>)
        ensures
            ({
                let done = loaded(old(site)@.models, root_path@, files@);
                match done.1 {
                    None => r is Ok && final(site)@ == (SiteView {
                        models: pruned(done.0, dir@, source_paths(files@)),
                        ..old(site)@
                    }),
                    Some(p) => r matches Err(DatabaseError::PathError(q)) && q@ == p
                        && final(site)@ == (SiteView { models: done.0, ..old(site)@ }),
                }
            }),
    {
        let ghost start = site@;
        let mut kept: Vec<String> = Vec::new();
        let mut i: usize = 0;
        while i < files.len()
            invariant
                i <= files.len(),
                start == old(site)@,
                loaded(start.models, root_path@, files@.subrange(0, i as int)).1 is None,
                site@ == (SiteView {
                    models: loaded(start.models, root_path@, files@.subrange(0, i as int)).0,
                    ..start
                }),
                views(kept@) == source_paths(files@.subrange(0, i as int)),
            decreases files.len() - i,
        {
            let f = &files[i];
            proof {
                assert(files@.subrange(0, i + 1).drop_last() =~= files@.subrange(0, i as int));
                assert(files@.subrange(0, i + 1).last() == *f);
            }
            if Self::is_content_file(f.path.as_str()) {
                match Self::add_model_to_site(site, root_path, f.path.as_str(), f.text.as_str(), f.modified) {
                    Ok(()) => {},
                    Err(e) => {
                        proof {
                            let pre = files@.subrange(0, i as int);
                            let cur = files@.subrange(0, i + 1);
                            assert(model_of(root_path@, f.path@, f.text@, f.modified) is None);
                            assert(cur.drop_last() =~= pre);
                            assert(loaded(start.models, root_path@, cur) == (
                                loaded(start.models, root_path@, pre).0,
                                Some(f.path@),
                            ));
                            lemma_loaded_stops(
                                start.models,
                                root_path@,
                                files@,
                                i + 1,
                                files.len() as int,
                            );
                            assert(files@.subrange(0, files.len() as int) =~= files@);
                        }
                        return Err(e);
                    },
                }
            }
            let ghost prev = kept@;
            kept.push(f.path.clone());
            proof {
                assert(views(kept@) =~= views(prev).push(f.path@));
                assert(source_paths(files@.subrange(0, i + 1)) =~= source_paths(
                    files@.subrange(0, i as int),
                ).push(f.path@));
            }
            i = i + 1;
        }
        proof {
            assert(files@.subrange(0, files.len() as int) =~= files@);
        }
        site.prune(dir, &kept);
        Ok(())
    }

    /// The directories of the content tree at `root_path` that changed since `site` was
    /// loaded, as the modification times of its models' source files tell.
    pub fn changes(site: &Site, root_path: &str, tree: &Vec<DirListing>) -> (r: Vec<String>)
        ensures
            exists|state: Map<Seq<char>, u128>|
                seeded_from(state, site@.models) && views(r@) == changes_of(state, tree@),
    {
        let stamps = site.state();
        let mut watcher = FileWatcher::new(root_path, Some(&stamps));
        let ghost state = watcher@.state;
        proof {
            let s = crate::watcher::file::stamp_pairs(stamps@);
            assert forall|p: Seq<char>| #[trigger] state.contains_key(p) implies exists|k: Seq<char>|
                site@.models.contains_key(k) && site@.models[k].root == p
                    && site@.models[k].last_modified == state[p] by {
                crate::keyed::lemma_pairs_value(s, p);
                let i = choose|i: int| 0 <= i < s.len() && s[i] == (p, state[p]);
                assert(s.to_set().contains((p, state[p])));
            }
            assert forall|k: Seq<char>| #[trigger] site@.models.contains_key(k) implies state.contains_key(
                site@.models[k].root,
            ) by {
                let m = site@.models[k];
                assert(crate::cms::site::stamps_of(site@.models).contains((m.root, m.last_modified)));
                assert(s.to_set().contains((m.root, m.last_modified)));
                let i = choose|i: int| 0 <= i < s.len() && s[i] == (m.root, m.last_modified);
                crate::keyed::lemma_pairs_dom(s, m.root);
            }
        }
        watcher.changes(tree)
    }
}

/// Once a load has stopped at a file, later files change nothing.
proof fn lemma_loaded_stops(
    models: Map<Seq<char>, ModelView>,
    root: Seq<char>,
    files: Seq<SourceFile>,
    i: int,
    j: int,
)
    requires
        0 <= i <= j <= files.len(),
        loaded(models, root, files.subrange(0, i)).1 is Some,
    ensures
        loaded(models, root, files.subrange(0, j)) == loaded(models, root, files.subrange(0, i)),
    decreases j - i,
{
    if j > i {
        lemma_loaded_stops(models, root, files, i, j - 1);
        assert(files.subrange(0, j).drop_last() =~= files.subrange(0, j - 1));
    }
}

} // verus!
