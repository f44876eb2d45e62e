use serde_json::Value;
use zentinel::fingerprint::{canonicalize, content_hash, digest_text};

fn text(s: &str) -> Value {
    Value::String(s.to_string())
}

fn object(entries: Vec<(&str, Value)>) -> Value {
    let mut map = serde_json::Map::new();
    for (k, v) in entries {
        map.insert(k.to_string(), v);
    }
    Value::Object(map)
}

fn base_config() -> Value {
    object(vec![
        ("schema_version", text("1.0")),
        (
            "routes",
            Value::Array(vec![text("first"), text("second")]),
        ),
        (
            "upstreams",
            object(vec![("b", Value::from(1)), ("a", Value::from(2))]),
        ),
        ("filters", object(vec![("z", Value::Null), ("y", Value::Bool(true))])),
    ])
}

#[test]
fn content_hash_is_stable_across_runs() {
    assert_eq!(content_hash(base_config()), content_hash(base_config()));
}

#[test]
fn content_hash_ignores_hashmap_insertion_order() {
    let c2 = object(vec![
        ("filters", object(vec![("y", Value::Bool(true)), ("z", Value::Null)])),
        (
            "upstreams",
            object(vec![("a", Value::from(2)), ("b", Value::from(1))]),
        ),
        (
            "routes",
            Value::Array(vec![text("first"), text("second")]),
        ),
        ("schema_version", text("1.0")),
    ]);
    assert_eq!(content_hash(base_config()), content_hash(c2));
}

#[test]
fn content_hash_changes_when_content_changes() {
    let before = content_hash(base_config());
    let mut c2 = base_config();
    c2["schema_version"] = text("1.0-modified");
    assert_ne!(before, content_hash(c2));
}

#[test]
fn content_hash_is_hex_sha256() {
    let hash = content_hash(base_config());
    assert_eq!(hash.len(), 64, "SHA-256 hex is 64 chars");
    assert!(hash.chars().all(|c| c.is_ascii_hexdigit()));
}

#[test]
fn list_order_moves_the_hash() {
    let mut c2 = base_config();
    c2["routes"] = Value::Array(vec![text("second"), text("first")]);
    assert_ne!(content_hash(base_config()), content_hash(c2));
}

#[test]
fn known_values() {
    assert_eq!(
        content_hash(object(vec![])),
        "44136fa355b3678a1146ad16f7e8649e94fb4fc21fe77e8310c060f61caaff8a"
    );
    assert_eq!(digest_text(&vec![0x00, 0x0F, 0xA0, 0xFF]), "000fa0ff");
}

#[test]
fn canonical_form_keeps_the_content() {
    assert_eq!(canonicalize(base_config()), base_config());
    let nested = Value::Array(vec![object(vec![("b", text("x")), ("a", Value::from(-1))])]);
    assert_eq!(
        canonicalize(nested).to_string(),
        "[{\"a\":-1,\"b\":\"x\"}]"
    );
}

#[test]
fn nothing_but_map_order_is_ignored() {
    let base = || object(vec![("a", text("x")), ("b", Value::Array(vec![text("1"), text("2")]))]);
    let swapped = object(vec![("b", Value::Array(vec![text("1"), text("2")])), ("a", text("x"))]);
    assert_eq!(content_hash(base()), content_hash(swapped));
    for other in [
        object(vec![("a", text("y")), ("b", Value::Array(vec![text("1"), text("2")]))]),
        object(vec![("a", text("x")), ("b", Value::Array(vec![text("2"), text("1")]))]),
        object(vec![("a", text("x")), ("b", Value::Array(vec![text("1")]))]),
        object(vec![("a", text("x"))]),
        object(vec![("a", text("x")), ("c", Value::Array(vec![text("1"), text("2")]))]),
        Value::Array(vec![base()]),
    ] {
        assert_ne!(content_hash(base()), content_hash(other));
    }
}
