use chat_agent::json::{elem_of, member_of, str_eq, JsonNumber, JsonValue};

fn s(text: &str) -> JsonValue {
    JsonValue::String(text.to_string())
}

fn obj(members: Vec<(&str, JsonValue)>) -> JsonValue {
    JsonValue::Object(members.into_iter().map(|(k, v)| (k.to_string(), v)).collect())
}

#[test]
fn get_finds_member_and_last_duplicate_wins() {
    let v = obj(vec![("a", s("first")), ("b", s("x")), ("a", s("second"))]);
    assert_eq!(v.get("a").and_then(|x| x.as_str()), Some("second"));
    assert_eq!(v.get("b").and_then(|x| x.as_str()), Some("x"));
    assert!(v.get("c").is_none());
}

#[test]
fn get_on_non_object_is_none() {
    assert!(s("a").get("a").is_none());
    assert!(JsonValue::Array(vec![s("a")]).get("a").is_none());
    assert!(JsonValue::Null.get("a").is_none());
}

#[test]
fn elem_reads_arrays_only() {
    let v = JsonValue::Array(vec![s("a"), s("b")]);
    assert_eq!(v.elem(1).and_then(|x| x.as_str()), Some("b"));
    assert!(v.elem(2).is_none());
    assert!(s("a").elem(0).is_none());
}

#[test]
fn number_readers() {
    let big = JsonValue::Number(JsonNumber::PosInt(u64::MAX));
    assert_eq!(big.as_u64(), Some(u64::MAX));
    assert_eq!(big.as_i64(), None);
    let small = JsonValue::Number(JsonNumber::PosInt(7));
    assert_eq!(small.as_i64(), Some(7));
    let neg = JsonValue::Number(JsonNumber::NegInt(-3));
    assert_eq!(neg.as_u64(), None);
    assert_eq!(neg.as_i64(), Some(-3));
    let float = JsonValue::Number(JsonNumber::Float("1.5".to_string()));
    assert_eq!(float.as_u64(), None);
    assert_eq!(float.as_i64(), None);
    assert_eq!(s("7").as_u64(), None);
}

#[test]
fn optional_chains_treat_missing_as_null() {
    let v = obj(vec![("choices", JsonValue::Array(vec![obj(vec![("x", s("y"))])]))]);
    let first = elem_of(v.get("choices"), 0);
    assert_eq!(member_of(first, "x").and_then(|x| x.as_str()), Some("y"));
    assert!(member_of(None, "x").is_none());
    assert!(elem_of(None, 0).is_none());
    assert!(elem_of(v.get("missing"), 0).is_none());
}

#[test]
fn string_equality() {
    assert!(str_eq("abc", "abc"));
    assert!(!str_eq("abc", "abd"));
    assert!(!str_eq("", "a"));
}
