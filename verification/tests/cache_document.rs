use what_stream::TagCache;

#[test]
fn round_trip_of_one_entry() {
    let mut cache = TagCache::new();
    cache.insert_if_absent(String::from("t1"), String::from("Rust"));
    let text = cache.to_json();
    assert_eq!(text, "{\"cache\":{\"t1\":\"Rust\"}}");
    let back = TagCache::parse_json(&text);
    assert_eq!(back.entries().as_slice(), cache.entries().as_slice());
}

#[test]
fn round_trip_of_many_entries_keeps_them_all() {
    let mut cache = TagCache::new();
    cache.insert_if_absent(String::from("a"), String::from("Alpha"));
    cache.insert_if_absent(String::from("b"), String::from("Beta \"quoted\""));
    cache.insert_if_absent(String::from("c"), String::from("back\\slash"));
    cache.insert_if_absent(String::from("d"), String::from("tab\tand\nnewline"));
    cache.insert_if_absent(String::from("e"), String::from("caf\u{e9} \u{6f22}\u{5b57}"));
    let text = cache.to_json();
    let back = TagCache::parse_json(&text);
    assert_eq!(back.entries().as_slice(), cache.entries().as_slice());
}

#[test]
fn missing_or_corrupt_documents_load_as_empty() {
    assert_eq!(TagCache::parse_json("").entries().len(), 0);
    assert_eq!(TagCache::parse_json("not json at all").entries().len(), 0);
    assert_eq!(TagCache::parse_json("{\"cache\":{").entries().len(), 0);
    assert_eq!(TagCache::parse_json("{\"other\":{}}").entries().len(), 0);
    assert_eq!(TagCache::parse_json("{\"cache\":{},}").entries().len(), 0);
    assert_eq!(TagCache::parse_json("{\"cache\":{\"a\":1}}").entries().len(), 0);
}

#[test]
fn whitespace_and_escapes_are_read() {
    let text = " {\u{9}\"cache\" : {\n  \"t1\" : \"Ru\\u0073t\",\r\n  \"t\\u0032\" : \"C\\n\"\n} } ";
    let cache = TagCache::parse_json(text);
    assert_eq!(cache.get("t1"), Some(&String::from("Rust")));
    assert_eq!(cache.get("t2"), Some(&String::from("C\n")));
    assert_eq!(cache.entries().len(), 2);
}

#[test]
fn later_duplicate_keys_win_as_rereading_would() {
    let text = "{\"cache\":{\"t\":\"one\",\"t\":\"two\"}}";
    let cache = TagCache::parse_json(text);
    assert_eq!(cache.get("t"), Some(&String::from("two")));
    assert_eq!(cache.entries().len(), 1);
}

#[test]
fn document_agrees_with_a_generic_json_reader() {
    let mut cache = TagCache::new();
    cache.insert_if_absent(String::from("id one"), String::from("Label \"A\""));
    cache.insert_if_absent(String::from("id\ttwo"), String::from("caf\u{e9}"));
    let text = cache.to_json();
    let value: serde_json::Value = serde_json::from_str(&text).unwrap();
    let inner = value.get("cache").unwrap().as_object().unwrap();
    assert_eq!(inner.len(), 2);
    assert_eq!(inner.get("id one").unwrap().as_str().unwrap(), "Label \"A\"");
    assert_eq!(inner.get("id\ttwo").unwrap().as_str().unwrap(), "caf\u{e9}");
}

#[test]
fn generic_json_output_is_read_back() {
    let mut entries = serde_json::Map::new();
    entries.insert(
        String::from("b23d8969"),
        serde_json::Value::String(String::from("Rust")),
    );
    let mut doc = serde_json::Map::new();
    doc.insert(String::from("cache"), serde_json::Value::Object(entries));
    let text = serde_json::to_string(&serde_json::Value::Object(doc)).unwrap();
    let cache = TagCache::parse_json(&text);
    assert_eq!(cache.get("b23d8969"), Some(&String::from("Rust")));
}

#[test]
fn control_characters_round_trip_through_u_escapes() {
    let mut cache = TagCache::new();
    cache.insert_if_absent(String::from("k"), String::from("a\u{1}b\u{1f}c"));
    let text = cache.to_json();
    assert!(text.contains("\\u0001"));
    assert!(text.contains("\\u001f"));
    let back = TagCache::parse_json(&text);
    assert_eq!(back.get("k"), Some(&String::from("a\u{1}b\u{1f}c")));
}
