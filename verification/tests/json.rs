use chrometester::json::{
    parse_bytes, parse_pairs, parse_strings, parse_text, print_pairs, print_strings, print_text,
    set_field, take_field, text_items, Json,
};

#[test]
fn values_are_read_with_all_they_hold() {
    let j = parse_text("{\"a\": [1, \"x\", null, true, -2, 1.5], \"b\": {\"c\": \"d\"}}").unwrap();
    let items = j.items_field("a").unwrap();
    assert_eq!(items.len(), 6);
    assert_eq!(items[0].unsigned(), Some(1));
    assert_eq!(items[1].text().map(|s| s.as_str()), Some("x"));
    assert!(matches!(items[2], Json::Null));
    assert!(matches!(items[3], Json::Bool(true)));
    assert_eq!(items[4].unsigned(), None);
    assert_eq!(items[5].unsigned(), None);
    assert_eq!(text_items(items), vec!["x"]);
    assert_eq!(j.get("b").unwrap().text_field("c").map(|s| s.as_str()), Some("d"));
    assert!(j.get("c").is_none());
    assert!(items[0].get("c").is_none());
}

#[test]
fn what_is_no_json_is_not_read() {
    assert!(parse_text("").is_none());
    assert!(parse_text("{").is_none());
    assert!(parse_text("{} x").is_none());
    assert!(parse_bytes(b"[1,").is_none());
    assert!(parse_bytes(&[0x22, 0xff, 0x22]).is_none());
    assert!(parse_bytes(b"[1]").is_some());
}

#[test]
fn of_fields_with_one_name_the_last_counts() {
    let j = parse_text("{\"a\": \"x\", \"a\": \"y\"}").unwrap();
    assert_eq!(j.text_field("a").map(|s| s.as_str()), Some("y"));
    let twice = Json::Object(vec![
        ("a".to_string(), Json::Str("x".to_string())),
        ("a".to_string(), Json::Str("y".to_string())),
    ]);
    assert_eq!(twice.text_field("a").map(|s| s.as_str()), Some("y"));
    assert_eq!(print_text(twice), "{\n  \"a\": \"y\"\n}");
}

#[test]
fn values_are_written_with_fields_by_name() {
    let text = "{\"b\":[],\"a\":{\"n\":7,\"t\":[\"中\\n\",false,null]}}";
    let written = print_text(parse_text(text).unwrap());
    assert_eq!(
        written,
        "{\n  \"a\": {\n    \"n\": 7,\n    \"t\": [\n      \"中\\n\",\n      false,\n      null\n    ]\n  },\n  \"b\": []\n}",
    );
    assert_eq!(print_text(parse_text(&written).unwrap()), written);
}

#[test]
fn values_nested_too_deep_are_not_read() {
    let nested = |n: usize| format!("{}{}", "[".repeat(n), "]".repeat(n));
    assert!(parse_text(&nested(127)).is_some());
    assert!(parse_text(&nested(128)).is_none());
}

#[test]
fn fields_are_taken_and_set() {
    let fields = vec![
        ("a".to_string(), Json::Bool(true)),
        ("b".to_string(), Json::Null),
        ("a".to_string(), Json::Bool(false)),
    ];
    let (taken, rest) = take_field(fields, "a");
    assert!(matches!(taken, Some(Json::Bool(false))));
    assert_eq!(rest.len(), 1);
    let (none, rest) = take_field(rest, "c");
    assert!(none.is_none());
    let set = set_field(rest, "b", Json::Str("x".to_string()));
    assert_eq!(print_text(Json::Object(set)), "{\n  \"b\": \"x\"\n}");
}

#[test]
fn lists_of_strings_are_written_and_read_back() {
    let list = vec!["114.0".to_string(), "a\"b\\".to_string(), "中".to_string()];
    let text = print_strings(&list);
    assert_eq!(text, "[\"114.0\",\"a\\\"b\\\\\",\"中\"]");
    assert_eq!(parse_strings(&text), Some(list));
    assert_eq!(parse_strings("[]"), Some(vec![]));
    assert_eq!(parse_strings("[1]"), None);
    assert_eq!(parse_strings("{}"), None);
}

#[test]
fn lists_of_pairs_are_written_and_read_back() {
    let list = vec![(112, 1109224), (0, u64::MAX), (u32::MAX, 0)];
    let text = print_pairs(&list);
    assert_eq!(text, "[[112,1109224],[0,18446744073709551615],[4294967295,0]]");
    assert_eq!(parse_pairs(&text), Some(list));
    assert_eq!(parse_pairs("[[1]]"), None);
    assert_eq!(parse_pairs("[[4294967296,0]]"), None);
    assert_eq!(parse_pairs("[[1,2,3]]"), None);
}

#[test]
fn numbers_that_are_no_unsigned_integers_stay_such() {
    let text = "[1.0,100.0,1e15,1e16,1e17,1e20,-1,-0.0,0.5,1.7976931348623157e308,18446744073709551616]";
    let again = parse_text(&print_text(parse_text(text).unwrap())).unwrap();
    let items = again.items().unwrap();
    assert_eq!(items.len(), 11);
    for item in items {
        assert!(matches!(item, Json::Number(_)));
        assert_eq!(item.unsigned(), None);
    }
    let again = parse_text(&print_text(parse_text("[18446744073709551615]").unwrap())).unwrap();
    assert_eq!(again.items().unwrap()[0].unsigned(), Some(u64::MAX));
}
