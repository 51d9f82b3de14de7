use khulan::cms::model::ModelBuilder;
use khulan::cms::page::Page;

#[test]
fn page_it_works() {
    let model = ModelBuilder::new()
        .title("Hello, World!")
        .uuid("1234")
        .num("1")
        .path("/hello-world")
        .template("default")
        .build();
    let page = Page::new(model);
    assert_eq!(page.model.title(), "Hello, World!");
}
