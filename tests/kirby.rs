use khulan::cms::model::ModelKind;
use khulan::cms::site::Site;
use khulan::database::kirby::{Kirby, SourceFile};
use khulan::database::{DatabaseBuilder, DatabaseError};
use khulan::watcher::file::DirListing;

#[test]
fn it_can_make_content_from_txt() {
    let text = " Title: Hello \n----\n\nDesc: World";
    let content = Kirby::content_from_string(text);
    assert_eq!(content.len(), 2);
    assert_eq!(content.get("title").unwrap().value(), "Hello");
    assert_eq!(content.get("desc").unwrap().value(), "World");
}

#[test]
fn it_can_extract_components() {
    let file_path = "content/1_some/default.en.txt";
    let (dir_path, num, template, lang, filename) = Kirby::extract_components(file_path);
    assert_eq!(dir_path, "content/some");
    assert_eq!(num, "1");
    assert_eq!(template, "default");
    assert_eq!(lang, "en");
    assert_eq!(filename, "default.en.txt");

    let file_path = "home/home.en.txt";
    let (dir_path, num, template, lang, filename) = Kirby::extract_components(file_path);
    assert_eq!(dir_path, "home");
    assert_eq!(num, "");
    assert_eq!(template, "home");
    assert_eq!(lang, "en");
    assert_eq!(filename, "home.en.txt");
}

#[test]
fn components_of_a_prefixed_folder() {
    let (dir_path, num, template, lang, filename) = Kirby::extract_components("1_some/default.en.txt");
    assert_eq!(dir_path, "some");
    assert_eq!(num, "1");
    assert_eq!(template, "default");
    assert_eq!(lang, "en");
    assert_eq!(filename, "default.en.txt");
}

#[test]
fn components_of_odd_names() {
    let (dir_path, num, template, lang, filename) = Kirby::extract_components("site.txt");
    assert_eq!((dir_path.as_str(), num.as_str()), ("", ""));
    assert_eq!((template.as_str(), lang.as_str(), filename.as_str()), ("site", "site", "site.txt"));
    let (dir_path, num, _, _, _) = Kirby::extract_components("2_a_b/3_/x.txt");
    assert_eq!(dir_path, "a_b/3_");
    assert_eq!(num, "3");
    let (_, _, template, lang, _) = Kirby::extract_components("a/noext");
    assert_eq!(template, "noext");
    assert_eq!(lang, "");
}

#[test]
fn content_sections_without_colon_are_skipped() {
    let content = Kirby::content_from_string("Title: A: B\n----\nno field here\n----\nText: line one\nline two\n");
    assert_eq!(content.len(), 2);
    assert_eq!(content.get("title").unwrap().value(), "A: B");
    assert_eq!(content.get("text").unwrap().value(), "line one\nline two");
    assert_eq!(Kirby::content_from_string("").len(), 0);
}

#[test]
fn models_from_files() {
    let page = Kirby::model_from_string("/c", "/c/1_blog/article.en.txt", "Title: Post", 9).unwrap();
    assert_eq!(*page.kind(), ModelKind::Page);
    assert_eq!(page.num(), Some(1));
    assert_eq!(page.language(), "en");
    assert_eq!(page.template(), "article");
    assert_eq!(page.path(), "en/blog");
    assert_eq!(page.title(), "Post");
    assert_eq!(page.root(), "/c/1_blog/article.en.txt");
    assert_eq!(page.last_modified(), 9);

    let site = Kirby::model_from_string("/c/", "/c/site.en.txt", "", 1).unwrap();
    assert_eq!(*site.kind(), ModelKind::Site);
    assert_eq!(site.path(), "en/$");

    let file = Kirby::model_from_string("/c", "/c/2_blog/photo.jpg.en.txt", "Sort: 4\n----\nTemplate: image", 1).unwrap();
    assert_eq!(*file.kind(), ModelKind::File);
    assert_eq!(file.template(), "image");
    assert_eq!(file.num(), Some(4));
    assert_eq!(file.path(), "en/blog/photo.jpg.en.txt");

    assert!(Kirby::model_from_string("/c", "/other/a.en.txt", "", 1).is_none());
    assert!(Kirby::model_from_string("/c", "/cc/a.en.txt", "", 1).is_none());
}

#[test]
fn adding_outside_the_root_is_a_path_error() {
    let mut site = Site::stub();
    let r = Kirby::add_model_to_site(&mut site, "/c", "/other/a.en.txt", "", 1);
    assert_eq!(r, Err(DatabaseError::PathError("/other/a.en.txt".to_string())));
    assert_eq!(site.len(), 0);
    assert!(Kirby::add_model_to_site(&mut site, "/c", "/c/a/a.en.txt", "", 1).is_ok());
    assert_eq!(site.len(), 1);
}

fn file(path: &str, text: &str, modified: u128) -> SourceFile {
    SourceFile { path: path.to_string(), text: text.to_string(), modified }
}

#[test]
fn loading_upserts_merges_and_drops_deleted_files() {
    let mut site = Site::stub();
    let files = vec![
        file("/c/1_a/page.en.txt", "Title: A\n----\nUuid: ua", 1),
        file("/c/b/page.en.txt", "Title: B", 1),
        file("/c/b/notes.md", "ignored", 1),
    ];
    assert!(Kirby::load_files(&mut site, "/c", "/c", &files).is_ok());
    assert_eq!(site.len(), 2);
    assert_eq!(site.find("en/a").unwrap().title(), "A");

    let again = vec![file("/c/1_a/page.en.txt", "Title: A2", 2)];
    assert!(Kirby::load_files(&mut site, "/c", "/c/1_a", &again).is_ok());
    let a = site.find("en/a").unwrap();
    assert_eq!(a.title(), "A2");
    assert_eq!(a.uuid(), "ua");
    assert_eq!(a.last_modified(), 2);

    assert!(Kirby::load_files(&mut site, "/c", "/c/b", &vec![]).is_ok());
    assert_eq!(site.len(), 1);
    assert!(site.find("en/b").is_none());
}

#[test]
fn loading_stops_at_the_first_bad_path() {
    let mut site = Site::stub();
    let files = vec![
        file("/c/a/page.en.txt", "Title: A", 1),
        file("/elsewhere/x.en.txt", "", 1),
        file("/c/b/page.en.txt", "Title: B", 1),
    ];
    let r = Kirby::load_files(&mut site, "/c", "/c", &files);
    assert_eq!(r, Err(DatabaseError::PathError("/elsewhere/x.en.txt".to_string())));
    assert_eq!(site.len(), 1);
}

#[test]
fn file_and_directory_conventions() {
    assert!(Kirby::is_content_file("/c/a/page.en.txt"));
    assert!(Kirby::is_content_file("page.txt"));
    assert!(!Kirby::is_content_file("/c/a/.txt"));
    assert!(!Kirby::is_content_file("/c/a/page.md"));
    assert!(!Kirby::is_content_file("/c/a.txt/page"));
    assert!(Kirby::skips_directory("/c/a/_versions"));
    assert!(!Kirby::skips_directory("/c/a/versions"));
}

#[test]
fn content_folder_and_load_dirs() {
    let site = Site::new(None, Some("/srv/www"), None);
    assert_eq!(Kirby::content_folder_path(&site, None), "/srv/www/storage/content");
    assert_eq!(Kirby::content_folder_path(&site, Some("/data")), "/data");
    assert_eq!(Kirby::dirs_to_load("/c", &vec![]), vec!["/c".to_string()]);
    let changes = vec!["/c/a".to_string(), "/c/b".to_string()];
    assert_eq!(Kirby::dirs_to_load("/c", &changes), changes);
}

#[test]
fn error_messages() {
    assert_eq!(DatabaseError::IoError("denied".to_string()).message(), "IO error: denied");
    assert_eq!(DatabaseError::PathError("/x".to_string()).message(), "Path error: /x");
    assert_eq!(DatabaseError::OtherError("?".to_string()).message(), "Other error: ?");
    let _kirby: Kirby = DatabaseBuilder::new().build();
}

fn listing(path: &str, files: &[(&str, u128)]) -> DirListing {
    DirListing { path: path.to_string(), files: files.iter().map(|(p, t)| (p.to_string(), *t)).collect() }
}

#[test]
fn site_changes_follow_file_times() {
    let mut site = Site::stub();
    let files = vec![file("/c/a/page.en.txt", "Title: A", 1), file("/c/b/page.en.txt", "Title: B", 1)];
    assert!(Kirby::load_files(&mut site, "/c", "/c", &files).is_ok());
    let tree = vec![
        listing("/c", &[]),
        listing("/c/a", &[("/c/a/page.en.txt", 1)]),
        listing("/c/b", &[("/c/b/page.en.txt", 1)]),
    ];
    assert!(Kirby::changes(&site, "/c", &tree).is_empty());
    let touched = vec![
        listing("/c", &[]),
        listing("/c/a", &[("/c/a/page.en.txt", 1)]),
        listing("/c/b", &[("/c/b/page.en.txt", 2)]),
    ];
    assert_eq!(Kirby::changes(&site, "/c", &touched), vec!["/c/b".to_string()]);
}

#[test]
fn a_change_after_the_poll_waits_for_the_next_poll() {
    let mut site = Site::stub();
    let v1 = vec![file("/c/a/page.en.txt", "Title: A1", 1), file("/c/b/page.en.txt", "Title: B1", 1)];
    assert!(Kirby::load_files(&mut site, "/c", "/c", &v1).is_ok());

    // first poll sees a change in /c/a
    let tree = vec![
        listing("/c", &[]),
        listing("/c/a", &[("/c/a/page.en.txt", 2)]),
        listing("/c/b", &[("/c/b/page.en.txt", 1)]),
    ];
    let changes = Kirby::changes(&site, "/c", &tree);
    assert_eq!(changes, vec!["/c/a".to_string()]);

    // /c/b changes after the poll and before the reload: the reload covers /c/a only
    assert!(Kirby::load_files(&mut site, "/c", "/c/a", &vec![file("/c/a/page.en.txt", "Title: A2", 2)]).is_ok());
    assert_eq!(site.find("en/a").unwrap().title(), "A2");
    assert_eq!(site.find("en/b").unwrap().title(), "B1");

    // the next poll reports /c/b, and its reload brings it up to date
    let tree = vec![
        listing("/c", &[]),
        listing("/c/a", &[("/c/a/page.en.txt", 2)]),
        listing("/c/b", &[("/c/b/page.en.txt", 3)]),
    ];
    let changes = Kirby::changes(&site, "/c", &tree);
    assert_eq!(changes, vec!["/c/b".to_string()]);
    assert!(Kirby::load_files(&mut site, "/c", "/c/b", &vec![file("/c/b/page.en.txt", "Title: B2", 3)]).is_ok());
    assert_eq!(site.find("en/b").unwrap().title(), "B2");
    assert!(Kirby::changes(&site, "/c", &tree).is_empty());
}
