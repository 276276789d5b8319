//! Tests for the ordered-insertion header mapping.

use httpcore::headers::Headers;

#[test]
fn new_mapping_is_empty() {
    let h = Headers::new();
    assert_eq!(h.len(), 0);
    assert_eq!(h.get(&"anything".to_string()), None);
}

#[test]
fn first_value_creates_the_entry() {
    let mut h = Headers::new();
    h.append_value("Host".to_string(), "example.com".to_string());
    assert_eq!(h.len(), 1);
    assert_eq!(
        h.get(&"Host".to_string()),
        Some(&vec!["example.com".to_string()])
    );
}

#[test]
fn repeated_name_appends_in_order() {
    let mut h = Headers::new();
    h.append_value("X".to_string(), "1".to_string());
    h.append_value("X".to_string(), "2".to_string());
    assert_eq!(h.len(), 1);
    assert_eq!(
        h.get(&"X".to_string()),
        Some(&vec!["1".to_string(), "2".to_string()])
    );
}

#[test]
fn entries_keep_arrival_order() {
    let mut h = Headers::new();
    h.append_value("B".to_string(), "1".to_string());
    h.append_value("A".to_string(), "2".to_string());
    h.append_value("B".to_string(), "3".to_string());
    assert_eq!(h.len(), 2);
    assert_eq!(h.name_at(0).as_str(), "B");
    assert_eq!(h.name_at(1).as_str(), "A");
    assert_eq!(h.values_at(0), &vec!["1".to_string(), "3".to_string()]);
    assert_eq!(h.values_at(1), &vec!["2".to_string()]);
}

#[test]
fn lookups_match_exactly() {
    let mut h = Headers::new();
    h.append_value("Key".to_string(), "v".to_string());
    assert_eq!(h.get(&"key".to_string()), None);
    assert_eq!(h.get(&"Key ".to_string()), None);
    assert_eq!(h.get(&"Key".to_string()), Some(&vec!["v".to_string()]));
}
