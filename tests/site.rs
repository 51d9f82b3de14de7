use khulan::cms::model::{ModelBuilder, ModelKind};
use khulan::cms::site::{Site, SiteBuilder};
use khulan::site;

#[test]
fn site_it_works() {
    let model = ModelBuilder::new()
        .title("Hello, World!")
        .uuid("1234")
        .num("1")
        .path("/hello-world")
        .template("default")
        .build();
    let site = SiteBuilder::new().models(vec![model]).build();
    assert_eq!(site.len(), 1);
}

#[test]
fn it_gets_page() {
    let model = ModelBuilder::new()
        .title("Hello, World!")
        .uuid("1234")
        .num("1")
        .kind(&ModelKind::Page)
        .path("/home")
        .template("default")
        .language("en")
        .build();
    let site = SiteBuilder::new().models(vec![model]).build();
    let page = site.page("en", None);
    assert_eq!(page.unwrap().uuid(), "1234");
}

#[test]
fn it_sets_pages() {
    let model = ModelBuilder::new()
        .title("Hello, World!")
        .uuid("1234")
        .num("1")
        .path("/hello-world")
        .template("default")
        .build();
    let mut site = SiteBuilder::new().models(vec![model]).build();

    let model = ModelBuilder::new()
        .title("Hello, World!")
        .uuid("1234")
        .num("1")
        .path("/hello-world")
        .template("default")
        .build();
    site.insert(model);
    assert_eq!(site.len(), 1);
}

#[test]
fn it_can_have_a_parent_and_children() {
    let mut site = SiteBuilder::new().build();

    let parent = ModelBuilder::new().path("/parent").build();

    let child = ModelBuilder::new().path("/parent/child").build();

    site.insert(parent.clone());
    site.insert(child.clone());

    let find_parent = child.parent(&site);
    assert_eq!(find_parent.unwrap().uuid(), Some(&parent).unwrap().uuid());

    let find_children = parent.children(&site);
    assert_eq!(find_children.len(), 1);
}

#[test]
fn parent_path_and_children_count() {
    let mut site = site().build();
    let parent = ModelBuilder::new().kind(&ModelKind::Page).path("parent").uuid("p").build();
    let child = ModelBuilder::new().kind(&ModelKind::Page).path("parent/child").uuid("c").build();
    let grandchild = ModelBuilder::new().kind(&ModelKind::Page).path("parent/child/deeper").build();
    site.insert(parent.clone());
    site.insert(child.clone());
    assert_eq!(child.parent(&site).unwrap().path(), "parent");
    assert_eq!(parent.children(&site).len(), 1);
    site.insert(grandchild.clone());
    assert_eq!(parent.children(&site).len(), 2);
    assert!(parent.parent(&site).is_none());
    assert_eq!(grandchild.children(&site).len(), 0);
}

fn sample_site() -> Site {
    let mut site = Site::new(None, Some("/srv/www"), None);
    site.insert(ModelBuilder::new().kind(&ModelKind::Page).path("home").language("en").uuid("h1").build());
    site.insert(ModelBuilder::new().kind(&ModelKind::Page).path("blog").language("en").uuid("b1").build());
    site.insert(ModelBuilder::new().kind(&ModelKind::Page).path("blog").language("de").uuid("b2").build());
    site.insert(
        ModelBuilder::new()
            .kind(&ModelKind::File)
            .path("blog")
            .language("en")
            .root("/srv/www/blog/cover.jpg.en.txt")
            .uuid("f1")
            .build(),
    );
    site.insert(ModelBuilder::new().kind(&ModelKind::Site).language("en").uuid("s1").build());
    site
}

#[test]
fn lookups_trim_one_slash_at_each_end() {
    let site = sample_site();
    assert_eq!(site.find("/en/blog/").unwrap().uuid(), "b1");
    assert!(site.find("//en/blog//").is_none());
    assert!(site.page("//en/blog//", None).is_none());
    assert_eq!(site.find("en/blog/").unwrap().uuid(), "b1");
    assert_eq!(site.page("en/blog/", None).unwrap().uuid(), "b1");
    assert_eq!(site.file("/en/blog/cover.jpg.en.txt").unwrap().uuid(), "f1");
}

#[test]
fn lookups_fall_back_to_uuid() {
    let site = sample_site();
    assert_eq!(site.find("b2").unwrap().path(), "de/blog");
    assert_eq!(site.page("/b2/", None).unwrap().path(), "de/blog");
    assert_eq!(site.file("f1").unwrap().path(), "en/blog/cover.jpg.en.txt");
    assert!(site.file("b1").is_none());
    assert!(site.find("nothing").is_none());
    assert!(site.page("nothing", None).is_none());
}

#[test]
fn page_with_language_filters() {
    let site = sample_site();
    assert_eq!(site.page("b2", Some("de")).unwrap().path(), "de/blog");
    assert!(site.page("b2", Some("en")).is_none());
    assert_eq!(site.page("en/blog", Some("en")).unwrap().uuid(), "b1");
    assert_eq!(site.page("en", Some("en")).unwrap().uuid(), "h1");
}

#[test]
fn site_root_by_language() {
    let site = sample_site();
    assert_eq!(site.model(None).unwrap().uuid(), "s1");
    assert_eq!(site.model(Some("en")).unwrap().uuid(), "s1");
    assert!(site.model(Some("de")).is_none());
}

#[test]
fn stub_and_builder_defaults() {
    let stub = Site::stub();
    assert_eq!(stub.len(), 0);
    assert_eq!(stub.dir(), "");
    assert_eq!(stub.url(), "http://localhost:8000/");
    let built = SiteBuilder::new().dir("/srv").url("https://example.org").build();
    assert_eq!(built.dir(), "/srv");
    assert_eq!(built.url(), "https://example.org");
    let with_models = Site::new(Some(vec![ModelBuilder::new().path("a").build()]), None, None);
    assert_eq!(with_models.len(), 1);
    assert_eq!(with_models.url(), "http://localhost:8000/");
}

#[test]
fn upsert_keeps_fields_of_the_earlier_model() {
    let mut site = Site::stub();
    site.upsert(ModelBuilder::new().path("a").title("old").uuid("u").build());
    site.upsert(ModelBuilder::new().path("a").title("new").build());
    assert_eq!(site.len(), 1);
    let m = site.get("a").unwrap();
    assert_eq!(m.title(), "new");
    assert_eq!(m.uuid(), "u");
    site.insert(ModelBuilder::new().path("a").title("plain").build());
    assert_eq!(site.get("a").unwrap().uuid(), "");
}

#[test]
fn remove_and_prune() {
    let mut site = Site::stub();
    site.insert(ModelBuilder::new().path("a").root("/c/a/x.txt").build());
    site.insert(ModelBuilder::new().path("a/b").root("/c/a/b/y.txt").build());
    site.insert(ModelBuilder::new().path("z").root("/c/z/z.txt").build());
    site.prune("/c/a", &vec!["/c/a/x.txt".to_string()]);
    assert_eq!(site.len(), 2);
    assert!(site.get("a/b").is_none());
    assert!(site.get("z").is_some());
    assert_eq!(site.remove("a").unwrap().root(), "/c/a/x.txt");
    assert!(site.remove("a").is_none());
    assert_eq!(site.len(), 1);
}

#[test]
fn load_is_due_when_empty_or_changed() {
    let mut site = Site::stub();
    assert!(site.should_load(&vec![]));
    site.insert(ModelBuilder::new().path("a").build());
    assert!(!site.should_load(&vec![]));
    assert!(site.should_load(&vec!["/c/a".to_string()]));
}

#[test]
fn state_lists_roots_with_times() {
    let mut site = Site::stub();
    site.insert(ModelBuilder::new().path("a").root("/c/a.txt").last_modified(5).build());
    site.insert(ModelBuilder::new().path("b").root("/c/b.txt").last_modified(6).build());
    let mut state = site.state();
    state.sort();
    assert_eq!(state, vec![("/c/a.txt".to_string(), 5), ("/c/b.txt".to_string(), 6)]);
}

#[test]
fn only_one_slash_is_trimmed_at_each_end() {
    let mut site = Site::stub();
    site.insert(ModelBuilder::new().kind(&ModelKind::Page).path("home").language("en").build());
    assert!(site.page("/en/", None).is_some());
    assert!(site.page("//en//", None).is_none());
    assert!(site.find("//en//").is_none());
    assert!(site.find("en/").is_some());
    site.insert(ModelBuilder::new().kind(&ModelKind::Page).path("x").uuid("/en/").build());
    assert_eq!(site.page("//en//", None).unwrap().uuid(), "/en/");
}

#[test]
fn clones_keep_the_index() {
    let site = sample_site();
    let copy = site.clone();
    assert_eq!(copy.len(), site.len());
    assert_eq!(copy.find("en/blog").unwrap().uuid(), "b1");
}
