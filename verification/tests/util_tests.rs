use std::collections::HashMap;
use subs_copy::util::{map_get, EdError};

#[test]
fn map_get_returns_the_stored_value() {
    let mut map: HashMap<u64, String> = HashMap::new();
    map.insert(3, "three".to_string());
    map.insert(5, "five".to_string());

    let value = map_get(&map, &5).expect("key 5 is present");
    assert_eq!(value.as_str(), "five");
}

#[test]
fn map_get_reports_a_missing_key() {
    let mut map: HashMap<u64, String> = HashMap::new();
    map.insert(3, "three".to_string());

    match map_get(&map, &4) {
        Err(EdError::KeyNotFound { key_str }) => assert_eq!(key_str, "4"),
        Ok(v) => panic!("unexpected value {:?}", v),
    }
}
