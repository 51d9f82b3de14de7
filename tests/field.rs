use khulan::cms::field::Field;

#[test]
fn field_it_works() {
    let field = Field::new("Title", Some("Hello, World!"));
    assert_eq!(field.name, "title");
    assert_eq!(field.name(), "title");
    assert_eq!(field.value, "Hello, World!");
    assert_eq!(field.value(), "Hello, World!");
}

#[test]
fn it_sets_value() {
    let mut field = Field::new("title", None);
    field.value = "Hello, World!".to_string();
    assert_eq!(field.value(), "Hello, World!");
}

#[test]
fn name_is_trimmed_and_lower_cased() {
    let field = Field::new("  Title  ", None);
    assert_eq!(field.name(), "title");
    assert_eq!(field.value(), "");
    let field = Field::new("\tUUID\n", Some("x"));
    assert_eq!(field.name(), "uuid");
}

#[test]
fn setters_change_one_part() {
    let mut field = Field::new("a", Some("1"));
    field.set_name("Raw Name");
    field.set_value("2");
    assert_eq!(field.name(), "Raw Name");
    assert_eq!(field.value(), "2");
}

#[test]
fn reads_integers() {
    assert_eq!(Field::new("n", Some("42")).to_int(), Some(42));
    assert_eq!(Field::new("n", Some("-7")).to_int(), Some(-7));
    assert_eq!(Field::new("n", Some("+7")).to_int(), Some(7));
    assert_eq!(Field::new("n", Some("2147483647")).to_int(), Some(i32::MAX));
    assert_eq!(Field::new("n", Some("-2147483648")).to_int(), Some(i32::MIN));
    assert_eq!(Field::new("n", Some("2147483648")).to_int(), None);
    assert_eq!(Field::new("n", Some("")).to_int(), None);
    assert_eq!(Field::new("n", Some("-")).to_int(), None);
    assert_eq!(Field::new("n", Some(" 1")).to_int(), None);
    assert_eq!(Field::new("n", Some("1a")).to_int(), None);
}

#[test]
fn reads_booleans() {
    assert_eq!(Field::new("b", Some("true")).to_bool(), Some(true));
    assert_eq!(Field::new("b", Some("false")).to_bool(), Some(false));
    assert_eq!(Field::new("b", Some("True")).to_bool(), None);
    assert_eq!(Field::new("b", Some("")).to_bool(), None);
}

#[test]
fn reads_string_and_list() {
    let field = Field::new("tags", Some("a,b,,c"));
    assert_eq!(field.to_string(), "a,b,,c");
    assert_eq!(field.to_vec(), vec!["a", "b", "", "c"]);
    assert_eq!(Field::new("tags", Some("")).to_vec(), vec![""]);
}

#[test]
fn reads_times() {
    let field = Field::new("date", Some("1700000000"));
    assert_eq!(field.to_systemtime_or(5), 1_700_000_000u128 * 1_000_000_000);
    assert_eq!(field.to_systemtime(), 1_700_000_000u128 * 1_000_000_000);
    let bad = Field::new("date", Some("yesterday"));
    assert_eq!(bad.to_systemtime_or(5), 5);
    assert!(bad.to_systemtime() > 1_700_000_000u128 * 1_000_000_000);
}

#[test]
fn list_pieces_rejoin_to_the_value() {
    let value = "x,,y,z";
    let pieces = Field::new("l", Some(value)).to_vec();
    assert_eq!(pieces.len(), value.matches(',').count() + 1);
    assert!(pieces.iter().all(|p| !p.contains(',')));
    assert_eq!(pieces.join(","), value);
}
