use convert_to_chrome_trace::annotations::{Annotation, AnnotationMap};
use std::collections::BTreeMap;

fn notes(pairs: &[(&str, &str)]) -> Vec<Annotation> {
    pairs
        .iter()
        .map(|(k, v)| Annotation { key: k.to_string(), value: v.to_string() })
        .collect()
}

fn listing<'a>(map: &AnnotationMap<'a>) -> Vec<(&'a str, &'a str)> {
    let mut all = Vec::new();
    for i in 0..map.len() {
        all.push(map.entry(i));
    }
    all
}

#[test]
fn new_map_is_empty() {
    let map = AnnotationMap::new();
    assert_eq!(map.len(), 0);
    assert_eq!(map.get("tid"), None);
}

#[test]
fn insert_then_get() {
    let mut map = AnnotationMap::new();
    map.insert("tid", "4");
    assert_eq!(map.len(), 1);
    assert_eq!(map.get("tid"), Some("4"));
    assert_eq!(map.get("categories"), None);
    assert_eq!(map.get("ti"), None);
    assert_eq!(map.get("tide"), None);
}

#[test]
fn insert_keeps_the_keys_in_ascending_order() {
    let mut map = AnnotationMap::new();
    map.insert("tid", "4");
    map.insert("categories", "io");
    map.insert("path", "/tmp/x");
    map.insert("a", "1");
    map.insert("z", "26");
    assert_eq!(
        listing(&map),
        vec![("a", "1"), ("categories", "io"), ("path", "/tmp/x"), ("tid", "4"), ("z", "26")]
    );
}

#[test]
fn insert_of_a_known_key_replaces_its_value() {
    let mut map = AnnotationMap::new();
    map.insert("categories", "io");
    map.insert("tid", "4");
    map.insert("categories", "net");
    assert_eq!(map.len(), 2);
    assert_eq!(map.get("categories"), Some("net"));
    assert_eq!(listing(&map), vec![("categories", "net"), ("tid", "4")]);
}

#[test]
fn collect_lets_the_last_write_win() {
    let list = notes(&[("k", "first"), ("other", "x"), ("k", "second"), ("k", "third")]);
    let map = AnnotationMap::collect(&list);
    assert_eq!(map.len(), 2);
    assert_eq!(map.get("k"), Some("third"));
    assert_eq!(map.get("other"), Some("x"));
}

#[test]
fn collect_of_no_annotations_is_empty() {
    let list = notes(&[]);
    let map = AnnotationMap::collect(&list);
    assert_eq!(map.len(), 0);
}

#[test]
fn collect_takes_the_empty_key_and_the_empty_value() {
    let list = notes(&[("b", ""), ("", "none"), ("a", "")]);
    let map = AnnotationMap::collect(&list);
    assert_eq!(listing(&map), vec![("", "none"), ("a", ""), ("b", "")]);
    assert_eq!(map.get(""), Some("none"));
}

#[test]
fn collect_agrees_with_a_btree_map() {
    let alphabet = ["a", "b", "c", "ab", "ba", "", "\u{e9}", "z", "tid", "categories", "\u{10000}"];
    let mut seed: u64 = 99;
    let mut pairs: Vec<(String, String)> = Vec::new();
    for round in 0..300 {
        seed = seed.wrapping_mul(6364136223846793005).wrapping_add(1442695040888963407);
        let first = alphabet[(seed >> 33) as usize % alphabet.len()];
        let second = alphabet[(seed >> 40) as usize % alphabet.len()];
        pairs.push((format!("{}{}", first, second), format!("v{}", round)));
    }
    let list: Vec<Annotation> = pairs
        .iter()
        .map(|(k, v)| Annotation { key: k.clone(), value: v.clone() })
        .collect();
    let map = AnnotationMap::collect(&list);
    let mut expected: BTreeMap<&str, &str> = BTreeMap::new();
    for (k, v) in pairs.iter() {
        expected.insert(k.as_str(), v.as_str());
    }
    let expected: Vec<(&str, &str)> = expected.into_iter().collect();
    assert_eq!(listing(&map), expected);
    for (k, v) in expected.iter() {
        assert_eq!(map.get(k), Some(*v));
    }
    assert_eq!(map.get("no such key"), None);
}
