use khulan::cms::content::Content;
use khulan::cms::field::Field;
use khulan::cms::model::{ModelBuilder, ModelKind};
use std::time::{SystemTime, UNIX_EPOCH};

fn nanos_now() -> u128 {
    SystemTime::now().duration_since(UNIX_EPOCH).unwrap().as_nanos()
}

#[test]
fn model_it_works() {
    let modified_at = nanos_now() - 60_000_000_000;
    let model = ModelBuilder::new()
        .kind(&ModelKind::Page)
        .title("Hello, World!")
        .language("en")
        .path("/hello-world")
        .uuid("123")
        .num("1")
        .root("/some/fl/root")
        .last_modified(modified_at)
        .build();

    assert_eq!(model.path(), "en/hello-world");
    assert_eq!(model.title(), "Hello, World!");
    assert_eq!(model.uuid(), "123");
    assert_eq!(model.language(), "en");
    assert_eq!(model.num().unwrap(), 1);
    assert_eq!(*model.kind(), ModelKind::Page);
    assert_eq!(model.last_modified(), modified_at);
    assert_eq!(model.root(), "/some/fl/root");
    assert_eq!(model.is_draft(), false);
    assert_eq!(model.is_published(), true);
    assert_eq!(model.is_unlisted(), false);
    assert_eq!(model.is_listed(), true);
}

#[test]
fn home_folds_to_the_language() {
    let model = ModelBuilder::new().kind(&ModelKind::Page).path("home").language("en").build();
    assert_eq!(model.path(), "en");
    let single = ModelBuilder::new().kind(&ModelKind::Page).path("home").build();
    assert_eq!(single.path(), "");
}

#[test]
fn site_and_file_paths() {
    let site = ModelBuilder::new().kind(&ModelKind::Site).path("anything").language("de").build();
    assert_eq!(site.path(), "de/$");
    let file = ModelBuilder::new()
        .kind(&ModelKind::File)
        .path("blog/post")
        .root("/srv/content/2_blog/post/photo.jpg.txt")
        .build();
    assert_eq!(file.path(), "blog/post/photo.jpg.txt");
    let home_file = ModelBuilder::new().kind(&ModelKind::File).path("home").root("/c/home/a.png.txt").build();
    assert_eq!(home_file.path(), "home/a.png.txt");
}

#[test]
fn build_trims_slashes_of_the_path() {
    let model = ModelBuilder::new().path("//a/b//").build();
    assert_eq!(model.path(), "a/b");
}

#[test]
fn file_sort_number_comes_from_its_field() {
    let content = Content::new(Some(&vec![Field::new("sort", Some("7")), Field::new("template", Some("image"))]));
    let file = ModelBuilder::new().kind(&ModelKind::File).content(&content).build();
    assert_eq!(file.num(), Some(7));
    assert_eq!(file.template(), "image");
    assert!(file.is_unlisted());
    let page = ModelBuilder::new().kind(&ModelKind::Page).content(&content).build();
    assert_eq!(page.num(), None);
    let bad = ModelBuilder::new().num("70000").build();
    assert_eq!(bad.num(), None);
    assert!(bad.is_listed());
}

#[test]
fn explicit_template_wins_over_field() {
    let content = Content::new(Some(&vec![Field::new("template", Some("image"))]));
    let model = ModelBuilder::new().template("article").content(&content).build();
    assert_eq!(model.template(), "article");
    let empty = ModelBuilder::new().build();
    assert_eq!(empty.template(), "");
    assert_eq!(empty.title(), "");
    assert_eq!(empty.uuid(), "");
    assert_eq!(*empty.kind(), ModelKind::Unknown);
}

#[test]
fn drafts_are_found_by_their_folder() {
    let draft = ModelBuilder::new().root("/c/blog/_drafts/post/article.txt").build();
    assert!(draft.is_draft());
    assert!(!draft.is_published());
    let named = ModelBuilder::new().root("/c/blog/_drafts.txt").build();
    assert!(!named.is_draft());
}

#[test]
fn content_builder_merges() {
    let first = Content::new(Some(&vec![Field::new("title", Some("a")), Field::new("text", Some("t"))]));
    let second = Content::new(Some(&vec![Field::new("title", Some("b"))]));
    let model = ModelBuilder::new().content(&first).content(&second).build();
    assert_eq!(model.title(), "b");
}

#[test]
fn inherit_keeps_missing_fields() {
    let old = ModelBuilder::new().title("old").uuid("u1").build();
    let mut new = ModelBuilder::new().title("new").build();
    new.inherit_content(&old);
    assert_eq!(new.title(), "new");
    assert_eq!(new.uuid(), "u1");
}

#[test]
fn url_under_default_base() {
    let model = ModelBuilder::new().path("blog/post").build();
    assert_eq!(model.url(), "http://localhost:8000/blog/post");
}
