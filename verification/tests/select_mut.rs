use jsonpath_lib::error::{Halt, JsonPathError};
use jsonpath_lib::json::{json_equal, JsonNumber, JsonValue, NumberRepr};
use jsonpath_lib::selector_mut::{replace_value, SelectorMut};
use jsonpath_lib::token::{FilterToken, Node, ParseToken};

fn posint(n: u64) -> JsonValue {
    JsonValue::Number(JsonNumber { repr: NumberRepr::PosInt(n), f64_bits: (n as f64).to_bits() })
}

fn text(s: &str) -> JsonValue {
    JsonValue::String(s.to_string())
}

fn arr(v: Vec<JsonValue>) -> JsonValue {
    JsonValue::Array(v)
}

fn obj(v: Vec<(&str, JsonValue)>) -> JsonValue {
    JsonValue::Object(v.into_iter().map(|(k, x)| (k.to_string(), x)).collect())
}

fn key(k: &str) -> ParseToken {
    ParseToken::Key(k.to_string())
}

fn number(x: f64) -> ParseToken {
    ParseToken::Number(x.to_bits())
}

fn selector(doc: JsonValue, tokens: Vec<ParseToken>) -> SelectorMut {
    let mut s = SelectorMut::new();
    assert!(s.str_path(Ok(Node { tokens })).is_ok());
    s.value(doc);
    s
}

fn doc() -> JsonValue {
    obj(vec![
        ("a", arr(vec![obj(vec![("x", posint(1))]), obj(vec![("x", posint(5))]), obj(vec![("y", posint(2))])])),
        ("b", text("keep")),
    ])
}

#[test]
fn mut_take_after_value_gives_it_back() {
    let mut s = SelectorMut::new();
    assert!(s.take().is_none());
    s.value(text("v"));
    let got = s.take();
    assert!(json_equal(&got.unwrap(), &text("v")));
    assert!(s.take().is_none());
}

#[test]
fn mut_delete_member() {
    let mut s = selector(doc(), vec![ParseToken::Absolute, ParseToken::In, key("b")]);
    assert!(s.delete().is_ok());
    let want = obj(vec![
        ("a", arr(vec![obj(vec![("x", posint(1))]), obj(vec![("x", posint(5))]), obj(vec![("y", posint(2))])])),
        ("b", JsonValue::Null),
    ]);
    assert!(json_equal(&s.take().unwrap(), &want));
}

#[test]
fn mut_delete_array_elements_keeps_length() {
    let mut s = selector(doc(), vec![ParseToken::Absolute, ParseToken::In, key("a"), ParseToken::Array, ParseToken::All, ParseToken::ArrayEof]);
    assert!(s.delete().is_ok());
    let want = obj(vec![("a", arr(vec![JsonValue::Null, JsonValue::Null, JsonValue::Null])), ("b", text("keep"))]);
    assert!(json_equal(&s.take().unwrap(), &want));
}

#[test]
fn mut_delete_filtered_nodes() {
    // $.a[?(@.x > 2)]
    let tokens = vec![
        ParseToken::Absolute,
        ParseToken::In,
        key("a"),
        ParseToken::Array,
        ParseToken::Relative,
        ParseToken::In,
        key("x"),
        number(2.0),
        ParseToken::Filter(FilterToken::Greater),
        ParseToken::ArrayEof,
    ];
    let mut s = selector(doc(), tokens);
    assert!(s.delete().is_ok());
    let want = obj(vec![
        ("a", arr(vec![obj(vec![("x", posint(1))]), JsonValue::Null, obj(vec![("y", posint(2))])])),
        ("b", text("keep")),
    ]);
    assert!(json_equal(&s.take().unwrap(), &want));
}

#[test]
fn mut_delete_nested_selection_nulls_topmost() {
    // $..* selects a, its elements and their members, and b
    let mut s = selector(doc(), vec![ParseToken::Absolute, ParseToken::Leaves, ParseToken::All]);
    assert!(s.delete().is_ok());
    let want = obj(vec![("a", JsonValue::Null), ("b", JsonValue::Null)]);
    assert!(json_equal(&s.take().unwrap(), &want));
}

#[test]
fn mut_delete_root_leaves_document() {
    let mut s = selector(doc(), vec![ParseToken::Absolute]);
    assert!(s.delete().is_ok());
    assert!(json_equal(&s.take().unwrap(), &doc()));
}

#[test]
fn mut_replace_with_function() {
    let mut s = selector(doc(), vec![ParseToken::Absolute, ParseToken::Leaves, key("x")]);
    let double = |v: &JsonValue| match v {
        JsonValue::Number(n) => match n.repr {
            NumberRepr::PosInt(k) => posint(k * 2),
            _ => JsonValue::Null,
        },
        _ => JsonValue::Null,
    };
    assert!(s.replace_with(&double).is_ok());
    let want = obj(vec![
        ("a", arr(vec![obj(vec![("x", posint(2))]), obj(vec![("x", posint(10))]), obj(vec![("y", posint(2))])])),
        ("b", text("keep")),
    ]);
    assert!(json_equal(&s.take().unwrap(), &want));
}

#[test]
fn mut_replace_nothing_selected_leaves_document() {
    let mut s = selector(doc(), vec![ParseToken::Absolute, ParseToken::In, key("none")]);
    assert!(s.replace_with(&|_: &JsonValue| text("changed")).is_ok());
    assert!(json_equal(&s.take().unwrap(), &doc()));
}

#[test]
fn mut_replace_shrinking_array_halts() {
    // $..* with a replacement that empties arrays: the elements of `a` are
    // then past its end.
    let mut s = selector(obj(vec![("a", arr(vec![posint(1), posint(2)]))]), vec![ParseToken::Absolute, ParseToken::Leaves, ParseToken::All]);
    let r = s.replace_with(&|v: &JsonValue| match v {
        JsonValue::Array(_) => arr(vec![]),
        _ => JsonValue::Null,
    });
    assert!(matches!(r, Err(JsonPathError::Halted(Halt::IndexOutOfBounds))));
    // the document is kept as replaced so far
    assert!(json_equal(&s.take().unwrap(), &obj(vec![("a", arr(vec![]))])));
}

#[test]
fn mut_without_path_is_empty_path() {
    let mut s = SelectorMut::new();
    s.value(doc());
    assert!(matches!(s.delete(), Err(JsonPathError::EmptyPath)));
    assert!(json_equal(&s.take().unwrap(), &doc()));
}

#[test]
fn mut_without_value_is_empty_value() {
    let mut s = SelectorMut::new();
    assert!(s.str_path(Ok(Node { tokens: vec![ParseToken::Absolute] })).is_ok());
    assert!(matches!(s.delete(), Err(JsonPathError::EmptyValue)));
}

#[test]
fn mut_path_error_is_reported() {
    let mut s = SelectorMut::new();
    match s.str_path(Err("bad".to_string())) {
        Err(e) => assert_eq!(e.message(), "path error: \nbad\n"),
        Ok(()) => panic!("expected an error"),
    }
}

#[test]
fn replace_value_by_key_path() {
    let v = doc();
    let path = vec!["a".to_string(), "1".to_string(), "x".to_string()];
    let r = replace_value(&path, v, &|_: &JsonValue| posint(7));
    let want = obj(vec![
        ("a", arr(vec![obj(vec![("x", posint(1))]), obj(vec![("x", posint(7))]), obj(vec![("y", posint(2))])])),
        ("b", text("keep")),
    ]);
    assert!(json_equal(&r.ok().unwrap(), &want));
}

#[test]
fn replace_value_missing_key_is_unchanged() {
    let path = vec!["zz".to_string(), "0".to_string()];
    let r = replace_value(&path, doc(), &|_: &JsonValue| posint(7));
    assert!(json_equal(&r.ok().unwrap(), &doc()));
    let path = vec!["a".to_string(), "first".to_string()];
    let r = replace_value(&path, doc(), &|_: &JsonValue| posint(7));
    assert!(json_equal(&r.ok().unwrap(), &doc()));
}

#[test]
fn replace_value_index_past_end_halts() {
    let path = vec!["a".to_string(), "3".to_string()];
    let r = replace_value(&path, doc(), &|_: &JsonValue| posint(7));
    assert!(matches!(r, Err(Halt::IndexOutOfBounds)));
}

#[test]
fn replace_value_empty_path_is_unchanged() {
    let r = replace_value(&vec![], doc(), &|_: &JsonValue| posint(7));
    assert!(json_equal(&r.ok().unwrap(), &doc()));
}
