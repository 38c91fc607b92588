use osm_reader::Tags;

#[test]
fn new_tags_are_empty() {
    let tags = Tags::new();
    assert_eq!(tags.len(), 0);
    assert_eq!(tags.get("name"), None);
    assert!(tags.into_pairs().is_empty());
}

#[test]
fn later_value_of_a_key_stands() {
    let mut tags = Tags::new();
    tags.insert("name".to_string(), "Foo".to_string());
    tags.insert("highway".to_string(), "residential".to_string());
    tags.insert("name".to_string(), "Bar".to_string());
    assert_eq!(tags.len(), 2);
    assert_eq!(tags.get("name").map(|v| v.as_str()), Some("Bar"));
    assert_eq!(tags.get("highway").map(|v| v.as_str()), Some("residential"));
    assert_eq!(tags.get("Name"), None);
    let mut pairs = tags.into_pairs();
    pairs.sort();
    assert_eq!(
        pairs,
        vec![
            ("highway".to_string(), "residential".to_string()),
            ("name".to_string(), "Bar".to_string()),
        ]
    );
}

#[test]
fn tags_from_pairs_keep_each_key_once() {
    let tags = Tags::from_pairs(vec![
        ("a".to_string(), "1".to_string()),
        ("b".to_string(), "2".to_string()),
        ("a".to_string(), "3".to_string()),
        ("".to_string(), "".to_string()),
    ]);
    assert_eq!(tags.len(), 3);
    assert_eq!(tags.get("a").map(|v| v.as_str()), Some("3"));
    assert_eq!(tags.get("b").map(|v| v.as_str()), Some("2"));
    assert_eq!(tags.get("").map(|v| v.as_str()), Some(""));
}
