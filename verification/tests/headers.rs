use request_shadow::headers::{name_less, str_equal};
use request_shadow::{HeaderMap, ResponseRecord};

fn names(m: &HeaderMap) -> Vec<String> {
    (0..m.len()).map(|i| m.name(i).clone()).collect()
}

#[test]
fn insert_keeps_names_sorted() {
    let mut m = HeaderMap::new();
    assert!(m.is_empty());
    m.insert("x-trace".to_string(), "1".to_string());
    m.insert("content-type".to_string(), "json".to_string());
    m.insert("accept".to_string(), "*/*".to_string());
    m.insert("x-b".to_string(), "2".to_string());
    assert_eq!(names(&m), vec!["accept", "content-type", "x-b", "x-trace"]);
    assert_eq!(m.len(), 4);
}

#[test]
fn insert_replaces_existing_value() {
    let mut m = HeaderMap::new();
    m.insert("k".to_string(), "old".to_string());
    m.insert("k".to_string(), "new".to_string());
    assert_eq!(m.len(), 1);
    assert_eq!(m.get("k"), Some(&"new".to_string()));
    assert_eq!(m.value(0), "new");
}

#[test]
fn get_and_contains_key() {
    let r = ResponseRecord::ok(vec![]).with_header("a", "1").with_header("b", "2");
    assert_eq!(r.headers.get("a"), Some(&"1".to_string()));
    assert_eq!(r.headers.get("b"), Some(&"2".to_string()));
    assert_eq!(r.headers.get("c"), None);
    assert!(r.headers.contains_key("b"));
    assert!(!r.headers.contains_key("B"));
}

#[test]
fn byte_order_of_names() {
    assert!(name_less("a", "b"));
    assert!(name_less("a", "ab"));
    assert!(!name_less("ab", "a"));
    assert!(!name_less("a", "a"));
    assert!(name_less("Z", "a"));
    assert!(name_less("z", "é"));
    assert!(name_less("", "a"));
    assert!(str_equal("héllo", "héllo"));
    assert!(!str_equal("hello", "hellö"));
}

#[test]
fn with_header_chains_like_a_map() {
    let r = ResponseRecord::ok(b"x".to_vec())
        .with_header("x-server", "new")
        .with_header("x-extra", "yes")
        .with_header("x-server", "newer");
    assert_eq!(names(&r.headers), vec!["x-extra", "x-server"]);
    assert_eq!(r.headers.get("x-server"), Some(&"newer".to_string()));
    assert!(r.ok);
    assert_eq!(r.status, 200);
    assert_eq!(r.body, b"x".to_vec());
    let c = r.clone();
    assert_eq!(c, r);
}
