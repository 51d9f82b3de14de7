//! Models: the content nodes of a site, with their derived path, sort number, template, language
//! and draft status.
use crate::cms::content::Content;
use crate::cms::field::now_nanos;
use crate::text::{
    contains, contains_str, file_name, file_name_str, parent_path, parent_path_str,
    parse_integer, parse_integer_exec, same_str, trim_slashes, trim_slashes_str,
};
use vstd::prelude::*;

verus! {

/// What a model stands for.
#[derive(Debug, Clone, Copy, PartialEq, Eq, Structural)]
pub enum ModelKind {
    Page,
    Site,
    File,
    User,
    Unknown,
}

/// A model as plain values.
pub struct ModelView {
    pub num: Seq<char>,
    pub kind: ModelKind,
    pub language: Seq<char>,
    pub path: Seq<char>,
    pub template: Seq<char>,
    pub content: Map<Seq<char>, Seq<char>>,
    pub root: Seq<char>,
    pub last_modified: u128,
}

/// A content node. `path` is the directory path relative to the content root, without
/// ordering prefixes; `root` is the path of the source file on disk; `last_modified` is its
/// modification time in nanoseconds since the Unix epoch.
#[derive(Debug)]
pub struct Model {
    num: String,
    kind: ModelKind,
    language: String,
    path: String,
    template: String,
    content: Content,
    root: String,
    last_modified: u128,
}

/// Builds a model one property at a time.
#[derive(Debug, Clone)]
pub struct ModelBuilder {
    num: String,
    kind: ModelKind,
    language: String,
    path: String,
    template: String,
    content: Content,
    last_modified: u128,
    root: String,
}

impl View for Model {
    type V = ModelView;

    closed spec fn view(&self) -> ModelView {
        ModelView {
            num: self.num@,
            kind: self.kind,
            language: self.language@,
            path: self.path@,
            template: self.template@,
            content: self.content@,
            root: self.root@,
            last_modified: self.last_modified,
        }
    }
}

impl View for ModelBuilder {
    type V = ModelView;

    closed spec fn view(&self) -> ModelView {
        ModelView {
            num: self.num@,
            kind: self.kind,
            language: self.language@,
            path: self.path@,
            template: self.template@,
            content: self.content@,
            root: self.root@,
            last_modified: self.last_modified,
        }
    }
}

/// The directory path that stands for the home page.
pub open spec fn home_segment() -> Seq<char> {
    seq!['h', 'o', 'm', 'e']
}

/// The index key of the site root: no real path can be it.
pub open spec fn site_key() -> Seq<char> {
    seq!['$']
}

pub open spec fn title_key() -> Seq<char> {
    seq!['t', 'i', 't', 'l', 'e']
}

pub open spec fn uuid_key() -> Seq<char> {
    seq!['u', 'u', 'i', 'd']
}

pub open spec fn sort_key() -> Seq<char> {
    seq!['s', 'o', 'r', 't']
}

pub open spec fn template_key() -> Seq<char> {
    seq!['t', 'e', 'm', 'p', 'l', 'a', 't', 'e']
}

/// The folder name that marks drafts.
pub open spec fn drafts_marker() -> Seq<char> {
    seq!['_', 'd', 'r', 'a', 'f', 't', 's']
}

/// The value of the field `key`, or the empty string.
pub open spec fn field_or_empty(content: Map<Seq<char>, Seq<char>>, key: Seq<char>) -> Seq<
    char,
> {
    if content.contains_key(key) {
        content[key]
    } else {
        Seq::empty()
    }
}

pub open spec fn title_of(m: ModelView) -> Seq<char> {
    field_or_empty(m.content, title_key())
}

pub open spec fn uuid_of(m: ModelView) -> Seq<char> {
    field_or_empty(m.content, uuid_key())
}

/// The index key of a model: the site root has a reserved key, a file adds its file name to its
/// directory path, and `home` is the empty path; then the language comes first, and no `/` is
/// left at either end.
pub open spec fn path_of(m: ModelView) -> Seq<char> {
    let base = if m.kind == ModelKind::Site {
        site_key()
    } else if m.kind == ModelKind::File {
        m.path + seq!['/'] + file_name(m.root)
    } else if m.path == home_segment() {
        Seq::empty()
    } else {
        m.path
    };
    trim_slashes(m.language + seq!['/'] + base)
}

/// The sort number: read from the folder prefix, or for a file without one from its `sort`
/// field.
pub open spec fn num_of(m: ModelView) -> Option<int> {
    if m.num.len() == 0 {
        if m.kind == ModelKind::File && m.content.contains_key(sort_key()) {
            parse_integer(m.content[sort_key()], 0, u16::MAX as int)
        } else {
            None
        }
    } else {
        parse_integer(m.num, 0, u16::MAX as int)
    }
}

/// The template: given explicitly, or else read from the `template` field.
pub open spec fn template_of(m: ModelView) -> Seq<char> {
    if m.template.len() == 0 {
        field_or_empty(m.content, template_key())
    } else {
        m.template
    }
}

/// A model is a draft when the folder path of its source file contains the drafts marker.
pub open spec fn is_draft_model(m: ModelView) -> bool {
    contains(parent_path(m.root), drafts_marker())
}

/// The sort number read from `s`.
fn parse_u16(s: &str) -> (r: Option<u16>)
    ensures
        match r {
            Some(v) => parse_integer(s@, 0, u16::MAX as int) == Some(v as int),
            None => parse_integer(s@, 0, u16::MAX as int) is None,
        },
{
    match parse_integer_exec(s, 0, 65535) {
        Some(v) => Some(v as u16),
        None => None,
    }
}

/// The value of the field `key` of `content`, or the empty string.
fn field_value<'a>(content: &'a Content, key: &str) -> (r: &'a str)
    ensures
        r@ == field_or_empty(content@, key@),
{
    match content.get(key) {
        Some(f) => f.value(),
        None => {
            proof {
                reveal_strlit("");
            }
            ""
        },
    }
}

impl Model {
    /// A deep copy.
    pub fn copy(&self) -> (r: Model)
        ensures
            r@ == self@,
    {
        Model {
            num: self.num.clone(),
            kind: self.kind,
            language: self.language.clone(),
            path: self.path.clone(),
            template: self.template.clone(),
            content: self.content.copy(),
            root: self.root.clone(),
            last_modified: self.last_modified,
        }
    }

    /// The directory path, relative to the content root.
    pub fn dir_path(&self) -> (r: &str)
        ensures
            r@ == self@.path,
    {
        self.path.as_str()
    }

    /// Keeps the fields of `earlier` that this model lacks.
    pub fn inherit_content(&mut self, earlier: &Model)
        ensures
            final(self)@ == (ModelView {
                content: earlier@.content.union_prefer_right(old(self)@.content),
                ..old(self)@
            }),
    {
        let mut content = earlier.content.copy();
        content.merge(&self.content);
        self.content = content;
    }

    pub fn content(&self) -> (r: &Content)
        ensures
            r@ == self@.content,
    {
        &self.content
    }

    /// The `title` field, or the empty string.
    pub fn title(&self) -> (r: &str)
        ensures
            r@ == title_of(self@),
    {
        proof {
            reveal_strlit("title");
            assert("title"@ =~= title_key());
        }
        field_value(&self.content, "title")
    }

    /// The `uuid` field, or the empty string.
    pub fn uuid(&self) -> (r: &str)
        ensures
            r@ == uuid_of(self@),
    {
        proof {
            reveal_strlit("uuid");
            assert("uuid"@ =~= uuid_key());
        }
        field_value(&self.content, "uuid")
    }

    /// The index key of this model.
    pub fn path(&self) -> (r: String)
        ensures
            r@ == path_of(self@),
    {
        proof {
            reveal_strlit("/");
            assert("/"@ =~= seq!['/']);
        }
        let base: String = if self.kind == ModelKind::Site {
            proof {
                reveal_strlit("$");
                assert("$"@ =~= site_key());
            }
            "$".to_owned()
        } else if self.kind == ModelKind::File {
            let mut b = self.path.clone();
            b.append("/");
            let name = file_name_str(self.root.as_str());
            b.append(name.as_str());
            b
        } else if same_str(self.path.as_str(), "home") {
            proof {
                reveal_strlit("home");
                assert("home"@ =~= home_segment());
            }
            String::new()
        } else {
            proof {
                reveal_strlit("home");
                assert("home"@ =~= home_segment());
            }
            self.path.clone()
        };
        let mut full = self.language.clone();
        full.append("/");
        full.append(base.as_str());
        trim_slashes_str(full.as_str())
    }

    pub fn last_modified(&self) -> (r: u128)
        ensures
            r == self@.last_modified,
    {
        self.last_modified
    }

    /// The sort number, when there is one.
    pub fn num(&self) -> (r: Option<u16>)
        ensures
            match r {
                Some(v) => num_of(self@) == Some(v as int),
                None => num_of(self@) is None,
            },
    {
        if self.num.as_str().is_empty() {
            if self.kind == ModelKind::File {
                proof {
                    reveal_strlit("sort");
                    assert("sort"@ =~= sort_key());
                }
                match self.content.get("sort") {
                    Some(f) => parse_u16(f.value()),
                    None => None,
                }
            } else {
                None
            }
        } else {
            parse_u16(self.num.as_str())
        }
    }

    pub fn kind(&self) -> (r: &ModelKind)
        ensures
            *r == self@.kind,
    {
        &self.kind
    }

    pub fn language(&self) -> (r: &str)
        ensures
            r@ == self@.language,
    {
        self.language.as_str()
    }

    /// The template name.
    pub fn template(&self) -> (r: &str)
        ensures
            r@ == template_of(self@),
    {
        if self.template.as_str().is_empty() {
            proof {
                reveal_strlit("template");
                assert("template"@ =~= template_key());
            }
            field_value(&self.content, "template")
        } else {
            self.template.as_str()
        }
    }

    /// The path of the source file.
    pub fn root(&self) -> (r: String)
        ensures
            r@ == self@.root,
    {
        self.root.clone()
    }

    pub fn modified(&self) -> (r: u128)
        ensures
            r == self@.last_modified,
    {
        self.last_modified
    }

    /// Whether the source file lies in a drafts folder.
    pub fn is_draft(&self) -> (r: bool)
        ensures
            r == is_draft_model(self@),
    {
        let folder = parent_path_str(self.root.as_str());
        proof {
            reveal_strlit("_drafts");
            assert("_drafts"@ =~= drafts_marker());
        }
        contains_str(folder.as_str(), "_drafts")
    }

    /// Whether the model has no sort number of its own.
    pub fn is_unlisted(&self) -> (r: bool)
        ensures
            r == (self@.num.len() == 0),
    {
        self.num.as_str().is_empty()
    }

    pub fn is_listed(&self) -> (r: bool)
        ensures
            r == (self@.num.len() != 0),
    {
        !self.is_unlisted()
    }

    pub fn is_published(&self) -> (r: bool)
        ensures
            r == !is_draft_model(self@),
    {
        !self.is_draft()
    }

    /// The address of the model under the default base URL.
    pub fn url(&self) -> (r: String)
        ensures
            r@ == "http://localhost:8000/"@ + self@.path,
    {
        let mut url = "http://localhost:8000/".to_owned();
        url.append(self.path.as_str());
        url
    }
}

impl Clone for Model {
    fn clone(&self) -> (r: Model)
        ensures
            r@ == self@,
    {
        self.copy()
    }
}

impl ModelBuilder {
    /// An empty builder: no kind, no properties, no content, modified now.
    pub fn new() -> (r: ModelBuilder)
        ensures
            r@.num.len() == 0,
            r@.kind == ModelKind::Unknown,
            r@.language.len() == 0,
            r@.path.len() == 0,
            r@.template.len() == 0,
            r@.content == Map::<Seq<char>, Seq<char>>::empty(),
            r@.root.len() == 0,
    {
        ModelBuilder {
            num: String::new(),
            kind: ModelKind::Unknown,
            language: String::new(),
            path: String::new(),
            template: String::new(),
            content: Content::new(None),
            last_modified: now_nanos(),
            root: String::new(),
        }
    }

    /// Sets the `title` field.
    pub fn title(&mut self, title: &str) -> (r: &mut Self)
        ensures
            r@ == (ModelView {
                content: old(self)@.content.insert(title_key(), title@),
                ..old(self)@
            }),
            *final(self) == *final(r),
    {
        proof {
            reveal_strlit("title");
            assert("title"@ =~= title_key());
        }
        self.content.insert(crate::cms::field::Field { name: "title".to_owned(), value: title.to_owned() });
        self
    }

    /// Sets the `uuid` field.
    pub fn uuid(&mut self, uuid: &str) -> (r: &mut Self)
        ensures
            r@ == (ModelView {
                content: old(self)@.content.insert(uuid_key(), uuid@),
                ..old(self)@
            }),
            *final(self) == *final(r),
    {
        proof {
            reveal_strlit("uuid");
            assert("uuid"@ =~= uuid_key());
        }
        self.content.insert(crate::cms::field::Field { name: "uuid".to_owned(), value: uuid.to_owned() });
        self
    }

    pub fn num(&mut self, num: &str) -> (r: &mut Self)
        ensures
            r@ == (ModelView { num: num@, ..old(self)@ }),
            *final(self) == *final(r),
    {
        self.num = num.to_owned();
        self
    }

    pub fn language(&mut self, language: &str) -> (r: &mut Self)
        ensures
            r@ == (ModelView { language: language@, ..old(self)@ }),
            *final(self) == *final(r),
    {
        self.language = language.to_owned();
        self
    }

    pub fn path(&mut self, path: &str) -> (r: &mut Self)
        ensures
            r@ == (ModelView { path: path@, ..old(self)@ }),
            *final(self) == *final(r),
    {
        self.path = path.to_owned();
        self
    }

    pub fn kind(&mut self, kind: &ModelKind) -> (r: &mut Self)
        ensures
            r@ == (ModelView { kind: *kind, ..old(self)@ }),
            *final(self) == *final(r),
    {
        self.kind = *kind;
        self
    }

    pub fn template(&mut self, template: &str) -> (r: &mut Self)
        ensures
            r@ == (ModelView { template: template@, ..old(self)@ }),
            *final(self) == *final(r),
    {
        self.template = template.to_owned();
        self
    }

    pub fn root(&mut self, root: &str) -> (r: &mut Self)
        ensures
            r@ == (ModelView { root: root@, ..old(self)@ }),
            *final(self) == *final(r),
    {
        self.root = root.to_owned();
        self
    }

    /// Merges `content` into the content built so far.
    pub fn content(&mut self, content: &Content) -> (r: &mut Self)
        ensures
            r@ == (ModelView {
                content: old(self)@.content.union_prefer_right(content@),
                ..old(self)@
            }),
            *final(self) == *final(r),
    {
        self.content.merge(content);
        self
    }

    /// Sets the modification time, in nanoseconds since the Unix epoch.
    pub fn last_modified(&mut self, last_modified: u128) -> (r: &mut Self)
        ensures
            r@ == (ModelView { last_modified, ..old(self)@ }),
            *final(self) == *final(r),
    {
        self.last_modified = last_modified;
        self
    }

    /// The model: the properties set so far, with no `/` left at either end of the path.
    pub fn build(&self) -> (r: Model)
        ensures
            r@ == (ModelView { path: trim_slashes(self@.path), ..self@ }),
    {
        Model {
            num: self.num.clone(),
            kind: self.kind,
            language: self.language.clone(),
            path: trim_slashes_str(self.path.as_str()),
            template: self.template.clone(),
            content: self.content.copy(),
            last_modified: self.last_modified,
            root: self.root.clone(),
        }
    }
}

} // verus!
