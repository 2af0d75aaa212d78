use restaurant_api::util::{is_well_formed_query, parse_query_str};

#[test]
fn parse_query_str_test() {
    let map1 = parse_query_str("table_no=10");
    assert_eq!(map1.len(), 1);
    assert_eq!(map1.get("table_no").unwrap(), "10");

    let map2 = parse_query_str("table_no=5&item_no=6");
    assert_eq!(map2.len(), 2);
    assert_eq!(map2.get("table_no").unwrap(), "5");
    assert_eq!(map2.get("item_no").unwrap(), "6");

    let map3 = parse_query_str("table_no=5&item_no=6&content=apple");
    assert_eq!(map3.len(), 3);
    assert_eq!(map3.get("table_no").unwrap(), "5");
    assert_eq!(map3.get("item_no").unwrap(), "6");
    assert_eq!(map3.get("content").unwrap(), "apple");
}

#[test]
fn later_name_replaces_earlier() {
    let map = parse_query_str("a=1&b=2&a=3");
    assert_eq!(map.len(), 2);
    assert_eq!(map.get("a").unwrap(), "3");
    assert_eq!(map.get("b").unwrap(), "2");
}

#[test]
fn value_keeps_later_equals_signs() {
    let map = parse_query_str("x=a=b&y=");
    assert_eq!(map.get("x").unwrap(), "a=b");
    assert_eq!(map.get("y").unwrap(), "");
    assert!(map.get("z").is_none());
}

#[test]
fn well_formed_queries() {
    assert!(is_well_formed_query("table_no=10"));
    assert!(is_well_formed_query("a=1&b="));
    assert!(!is_well_formed_query(""));
    assert!(!is_well_formed_query("table_no"));
    assert!(!is_well_formed_query("a=1&"));
    assert!(!is_well_formed_query("a=1&&b=2"));
}
