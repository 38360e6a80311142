use bruecke::store::StateStore;

#[test]
fn state_empty_returns_braces() {
    let st = StateStore::new();
    assert_eq!(st.to_json(), "{}");
}

#[test]
fn state_single_int() {
    let mut st = StateStore::new();
    st.insert("score".into(), "42".into());
    let j = st.to_json();
    assert_eq!(j, r#"{"score":42}"#);
}

#[test]
fn state_single_string_value() {
    let mut st = StateStore::new();
    st.insert("name".into(), r#""Player""#.into());
    let j = st.to_json();
    assert_eq!(j, r#"{"name":"Player"}"#);
}

#[test]
fn state_multiple_values_valid_json() {
    let mut st = StateStore::new();
    st.insert("a".into(), "1".into());
    st.insert("b".into(), "2".into());
    let j = st.to_json();
    // parse with serde_json to verify it is valid JSON and has correct values
    let v: serde_json::Value = serde_json::from_str(&j).expect("valid JSON");
    assert_eq!(v["a"], serde_json::Value::from(1));
    assert_eq!(v["b"], serde_json::Value::from(2));
}

#[test]
fn state_cleared_returns_braces() {
    let mut st = StateStore::new();
    st.insert("x".into(), "99".into());
    st.clear();
    assert_eq!(st.to_json(), "{}");
}

#[test]
fn store_get_after_insert_and_overwrite() {
    let mut st = StateStore::new();
    assert_eq!(st.get("k"), None);
    st.insert("k".into(), "1".into());
    st.insert("other".into(), "true".into());
    assert_eq!(st.get("k"), Some("1".to_string()));
    st.insert("k".into(), "2".into());
    assert_eq!(st.get("k"), Some("2".to_string()));
    assert_eq!(st.get("other"), Some("true".to_string()));
    assert_eq!(st.len(), 2);
    assert_eq!(st.to_json(), r#"{"k":2,"other":true}"#);
}

#[test]
fn store_remove_then_get_none() {
    let mut st = StateStore::new();
    st.insert("a".into(), "1".into());
    st.insert("b".into(), "2".into());
    assert_eq!(st.remove("a"), Some("1".to_string()));
    assert_eq!(st.get("a"), None);
    assert_eq!(st.remove("a"), None);
    assert_eq!(st.get("b"), Some("2".to_string()));
    assert_eq!(st.to_json(), r#"{"b":2}"#);
    assert!(!st.is_empty());
}

#[test]
fn store_key_quotes_escaped() {
    let mut st = StateStore::new();
    st.insert("say \"hi\"".into(), "0".into());
    assert_eq!(st.to_json(), r#"{"say \"hi\"":0}"#);
}

#[test]
fn store_load_json_object() {
    let mut st = StateStore::new();
    st.insert("old".into(), "1".into());
    st.load_json(r#"{"b": "x", "a": [1, 2], "c": null}"#);
    assert_eq!(st.get("old"), None);
    assert_eq!(st.get("a"), Some("[1,2]".to_string()));
    assert_eq!(st.get("b"), Some("\"x\"".to_string()));
    assert_eq!(st.get("c"), Some("null".to_string()));
    assert_eq!(st.len(), 3);
}

#[test]
fn store_load_json_rejects_non_object() {
    let mut st = StateStore::new();
    st.insert("keep".into(), "7".into());
    st.load_json("[1, 2]");
    st.load_json("not json");
    assert_eq!(st.get("keep"), Some("7".to_string()));
    assert_eq!(st.len(), 1);
}

#[test]
fn store_hydrate_none_keeps_contents() {
    let mut st = StateStore::new();
    st.insert("keep".into(), "7".into());
    st.hydrate(None);
    assert_eq!(st.get("keep"), Some("7".to_string()));
    st.hydrate(Some(vec![("x".to_string(), "1".to_string()), ("x".to_string(), "2".to_string())]));
    assert_eq!(st.get("keep"), None);
    assert_eq!(st.get("x"), Some("2".to_string()));
}
