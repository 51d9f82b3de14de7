use khulan::cms::content::Content;
use khulan::cms::field::Field;

#[test]
fn it_can_have_no_fields() {
    let content = Content::new(None);
    assert_eq!(content.len(), 0);
}

#[test]
fn it_can_have_fields() {
    let content = Content::new(Some(&vec![Field::new("title", Some("Hello, World!"))]));
    assert_eq!(content.len(), 1);
}

#[test]
fn it_gets_field() {
    let field = Field::new("title", Some("Hello, World!"));
    let mut content = Content::new(None);
    content.insert(field);
    let field = content.get("title");
    assert_eq!(field.unwrap().name(), "title");
}

#[test]
fn it_sets_fields() {
    let field = Field::new("title", Some("Hello, World!"));
    let mut content = Content::new(Some(&vec![field]));
    assert_eq!(content.len(), 1);

    content = Content::new(Some(&vec![
        Field::new("1st-title", Some("Hello, New World 1!")),
        Field::new("2nd-title", Some("Hello, New World 2!")),
    ]));
    assert_eq!(content.len(), 2);
}

#[test]
fn later_field_of_same_name_wins() {
    let content = Content::new(Some(&vec![
        Field::new("title", Some("first")),
        Field::new("Title", Some("second")),
    ]));
    assert_eq!(content.len(), 1);
    assert_eq!(content.get("title").unwrap().value(), "second");
}

#[test]
fn insert_replaces_a_field_of_the_same_name() {
    let mut content = Content::new(None);
    content.insert(Field::new("title", Some("a")));
    content.insert(Field::new("title", Some("b")));
    assert_eq!(content.len(), 1);
    assert_eq!(content.get("title").unwrap().value(), "b");
    assert!(content.get("missing").is_none());
}

#[test]
fn merge_is_right_biased_and_keeps_other_keys() {
    let mut c1 = Content::new(Some(&vec![
        Field::new("title", Some("old")),
        Field::new("desc", Some("kept")),
    ]));
    let c2 = Content::new(Some(&vec![
        Field::new("title", Some("new")),
        Field::new("uuid", Some("42")),
    ]));
    c1.merge(&c2);
    assert_eq!(c1.len(), 3);
    assert_eq!(c1.get("title").unwrap().value(), "new");
    assert_eq!(c1.get("desc").unwrap().value(), "kept");
    assert_eq!(c1.get("uuid").unwrap().value(), "42");
}

#[test]
fn merging_twice_equals_merging_once() {
    let mut once = Content::new(Some(&vec![Field::new("a", Some("1")), Field::new("b", Some("2"))]));
    let other = Content::new(Some(&vec![Field::new("b", Some("3")), Field::new("c", Some("4"))]));
    once.merge(&other);
    let mut twice = once.clone();
    twice.merge(&other);
    assert_eq!(once.len(), twice.len());
    for name in ["a", "b", "c"] {
        assert_eq!(once.get(name).unwrap().value(), twice.get(name).unwrap().value());
    }
}
