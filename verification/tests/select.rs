use jsonpath_lib::error::JsonPathError;
use jsonpath_lib::json::{json_equal, JsonNumber, JsonValue, NumberRepr};
use jsonpath_lib::refs::ValueRef;
use jsonpath_lib::selector::Selector;
use jsonpath_lib::token::{FilterToken, Node, ParseToken};

fn posint(n: u64) -> JsonValue {
    JsonValue::Number(JsonNumber { repr: NumberRepr::PosInt(n), f64_bits: (n as f64).to_bits() })
}

fn neg(n: i64) -> JsonValue {
    JsonValue::Number(JsonNumber { repr: NumberRepr::NegInt(n), f64_bits: (n as f64).to_bits() })
}

fn float(x: f64) -> JsonValue {
    JsonValue::Number(JsonNumber { repr: NumberRepr::Float(x.to_bits()), f64_bits: x.to_bits() })
}

fn text(s: &str) -> JsonValue {
    JsonValue::String(s.to_string())
}

fn arr(v: Vec<JsonValue>) -> JsonValue {
    JsonValue::Array(v)
}

fn obj(v: Vec<(&str, JsonValue)>) -> JsonValue {
    JsonValue::Object(v.into_iter().map(|(k, x)| (k.to_string(), x)).collect())
}

fn key(k: &str) -> ParseToken {
    ParseToken::Key(k.to_string())
}

fn number(x: f64) -> ParseToken {
    ParseToken::Number(x.to_bits())
}

fn run<'a>(doc: &'a JsonValue, tokens: Vec<ParseToken>) -> Result<Vec<ValueRef<'a>>, JsonPathError> {
    let mut s = Selector::new();
    assert!(s.str_path(Ok(Node { tokens })).is_ok());
    s.value(doc);
    s.select()
}

/// The selected values, `None` for the `null` of an empty subscript.
fn values<'a>(r: &[ValueRef<'a>]) -> Vec<Option<&'a JsonValue>> {
    r.iter().map(|x| x.node_value()).collect()
}

fn same(got: &[ValueRef], want: &[JsonValue]) -> bool {
    let got = values(got);
    got.len() == want.len()
        && got.iter().zip(want.iter()).all(|(g, w)| match g {
            Some(g) => json_equal(g, w),
            None => false,
        })
}

fn positions(r: &[ValueRef]) -> Vec<Vec<usize>> {
    r.iter()
        .map(|x| match x {
            ValueRef::Node(p, _) => p.clone(),
            ValueRef::Null => vec![usize::MAX],
        })
        .collect()
}

fn store() -> JsonValue {
    obj(vec![
        (
            "store",
            obj(vec![
                (
                    "book",
                    arr(vec![
                        obj(vec![("category", text("reference")), ("author", text("Nigel Rees")), ("price", float(8.95))]),
                        obj(vec![("category", text("fiction")), ("author", text("Evelyn Waugh")), ("price", float(12.99))]),
                        obj(vec![("category", text("fiction")), ("author", text("Herman Melville")), ("price", float(8.99)), ("isbn", text("0-553-21311-3"))]),
                        obj(vec![("category", text("fiction")), ("author", text("J. R. R. Tolkien")), ("price", float(22.99)), ("isbn", text("0-395-19395-8"))]),
                    ]),
                ),
                ("bicycle", obj(vec![("color", text("red")), ("price", float(19.95))])),
            ]),
        ),
        ("expensive", posint(10)),
    ])
}

#[test]
fn select_root() {
    let doc = obj(vec![("a", posint(1))]);
    let r = run(&doc, vec![ParseToken::Absolute]).ok().unwrap();
    assert!(same(&r, &[obj(vec![("a", posint(1))])]));
    assert_eq!(positions(&r), vec![Vec::<usize>::new()]);
}

#[test]
fn select_member() {
    let doc = obj(vec![("a", posint(1)), ("b", text("x"))]);
    let r = run(&doc, vec![ParseToken::Absolute, ParseToken::In, key("b")]).ok().unwrap();
    assert!(same(&r, &[text("x")]));
    assert_eq!(positions(&r), vec![vec![1]]);
}

#[test]
fn select_missing_member_is_empty() {
    let doc = obj(vec![("a", posint(1))]);
    let r = run(&doc, vec![ParseToken::Absolute, ParseToken::In, key("zz")]).ok().unwrap();
    assert!(r.is_empty());
}

#[test]
fn select_descendant_members_in_document_order() {
    let doc = store();
    let r = run(&doc, vec![ParseToken::Absolute, ParseToken::Leaves, key("author")]).ok().unwrap();
    assert!(same(&r, &[text("Nigel Rees"), text("Evelyn Waugh"), text("Herman Melville"), text("J. R. R. Tolkien")]));
}

#[test]
fn select_descendant_prices() {
    let doc = store();
    let r = run(&doc, vec![ParseToken::Absolute, ParseToken::In, key("store"), ParseToken::Leaves, key("price")]).ok().unwrap();
    assert!(same(&r, &[float(8.95), float(12.99), float(8.99), float(22.99), float(19.95)]));
}

#[test]
fn select_array_index() {
    let doc = arr(vec![posint(10), posint(20), posint(30)]);
    let r = run(&doc, vec![ParseToken::Absolute, ParseToken::Array, number(1.0), ParseToken::ArrayEof]).ok().unwrap();
    assert!(same(&r, &[posint(20)]));
    assert_eq!(positions(&r), vec![vec![1]]);
}

#[test]
fn select_negative_index_counts_from_end() {
    let doc = arr(vec![posint(10), posint(20), posint(30)]);
    let r = run(&doc, vec![ParseToken::Absolute, ParseToken::Array, number(-1.0), ParseToken::ArrayEof]).ok().unwrap();
    assert!(same(&r, &[posint(30)]));
}

#[test]
fn select_index_past_end_is_empty() {
    let doc = arr(vec![posint(10)]);
    let r = run(&doc, vec![ParseToken::Absolute, ParseToken::Array, number(5.0), ParseToken::ArrayEof]).ok().unwrap();
    assert!(r.is_empty());
    let r = run(&doc, vec![ParseToken::Absolute, ParseToken::Array, number(-3.0), ParseToken::ArrayEof]).ok().unwrap();
    assert!(r.is_empty());
}

#[test]
fn select_fractional_index_truncates() {
    let doc = arr(vec![posint(10), posint(20), posint(30)]);
    let r = run(&doc, vec![ParseToken::Absolute, ParseToken::Array, number(1.7), ParseToken::ArrayEof]).ok().unwrap();
    assert!(same(&r, &[posint(20)]));
}

#[test]
fn select_wildcard_children() {
    let doc = obj(vec![("a", posint(1)), ("b", arr(vec![posint(2), posint(3)]))]);
    let r = run(&doc, vec![ParseToken::Absolute, ParseToken::In, ParseToken::All]).ok().unwrap();
    assert!(same(&r, &[posint(1), arr(vec![posint(2), posint(3)])]));
    let r = run(&doc, vec![ParseToken::Absolute, ParseToken::Array, ParseToken::All, ParseToken::ArrayEof]).ok().unwrap();
    assert!(same(&r, &[posint(1), arr(vec![posint(2), posint(3)])]));
}

#[test]
fn select_all_descendants() {
    let doc = obj(vec![("a", posint(1)), ("b", arr(vec![posint(2), posint(3)]))]);
    let r = run(&doc, vec![ParseToken::Absolute, ParseToken::Leaves, ParseToken::All]).ok().unwrap();
    assert!(same(&r, &[posint(1), arr(vec![posint(2), posint(3)]), posint(2), posint(3)]));
    assert_eq!(positions(&r), vec![vec![0], vec![1], vec![1, 0], vec![1, 1]]);
}

#[test]
fn select_slice() {
    let doc = arr(vec![posint(0), posint(1), posint(2), posint(3), posint(4)]);
    let r = run(&doc, vec![ParseToken::Absolute, ParseToken::Array, ParseToken::Range(Some(1), Some(3), None), ParseToken::ArrayEof]).ok().unwrap();
    assert!(same(&r, &[posint(1), posint(2)]));
    let r = run(&doc, vec![ParseToken::Absolute, ParseToken::Array, ParseToken::Range(None, None, Some(2)), ParseToken::ArrayEof]).ok().unwrap();
    assert!(same(&r, &[posint(0), posint(2), posint(4)]));
    let r = run(&doc, vec![ParseToken::Absolute, ParseToken::Array, ParseToken::Range(Some(-2), None, None), ParseToken::ArrayEof]).ok().unwrap();
    assert!(same(&r, &[posint(3), posint(4)]));
    let r = run(&doc, vec![ParseToken::Absolute, ParseToken::Array, ParseToken::Range(Some(3), Some(1), None), ParseToken::ArrayEof]).ok().unwrap();
    assert!(r.is_empty());
}

#[test]
fn select_slice_to_far_negative_end_wraps() {
    // the end index -10 of a 5-element array wraps past every index
    let doc = arr(vec![posint(0), posint(1), posint(2), posint(3), posint(4)]);
    let r = run(&doc, vec![ParseToken::Absolute, ParseToken::Array, ParseToken::Range(None, Some(-10), None), ParseToken::ArrayEof]).ok().unwrap();
    assert!(same(&r, &[posint(0), posint(1), posint(2), posint(3), posint(4)]));
    let r = run(&doc, vec![ParseToken::Absolute, ParseToken::Array, ParseToken::Range(Some(-10), None, None), ParseToken::ArrayEof]).ok().unwrap();
    assert!(r.is_empty());
}

#[test]
fn select_slice_with_zero_step_halts() {
    let doc = arr(vec![posint(0), posint(1)]);
    let r = run(&doc, vec![ParseToken::Absolute, ParseToken::Array, ParseToken::Range(None, None, Some(0)), ParseToken::ArrayEof]);
    assert!(matches!(r, Err(JsonPathError::Halted(jsonpath_lib::error::Halt::ZeroStep))));
}

#[test]
fn select_union_of_indices() {
    let doc = arr(vec![posint(0), posint(1), posint(2), posint(3)]);
    let r = run(&doc, vec![ParseToken::Absolute, ParseToken::Array, ParseToken::Union(vec![3, 0, -1, 9]), ParseToken::ArrayEof]).ok().unwrap();
    assert!(same(&r, &[posint(3), posint(0), posint(3)]));
}

#[test]
fn select_keys_in_brackets() {
    let doc = obj(vec![("a", posint(1)), ("b", posint(2)), ("c", posint(3))]);
    let r = run(&doc, vec![ParseToken::Absolute, ParseToken::Array, ParseToken::Keys(vec!["c".to_string(), "a".to_string(), "z".to_string()]), ParseToken::ArrayEof]).ok().unwrap();
    assert!(same(&r, &[posint(3), posint(1)]));
    let r = run(&doc, vec![ParseToken::Absolute, ParseToken::Array, key("b"), ParseToken::ArrayEof]).ok().unwrap();
    assert!(same(&r, &[posint(2)]));
}

fn filter_books(op: FilterToken, right: ParseToken, member: &str) -> Vec<ParseToken> {
    vec![
        ParseToken::Absolute,
        ParseToken::In,
        key("store"),
        ParseToken::In,
        key("book"),
        ParseToken::Array,
        ParseToken::Relative,
        ParseToken::In,
        key(member),
        right,
        ParseToken::Filter(op),
        ParseToken::ArrayEof,
    ]
}

#[test]
fn select_filter_number_greater() {
    let doc = store();
    let r = run(&doc, filter_books(FilterToken::Greater, number(10.0), "price")).ok().unwrap();
    let books = values(&r);
    assert_eq!(books.len(), 2);
    assert_eq!(positions(&r), vec![vec![0, 0, 1], vec![0, 0, 3]]);
}

#[test]
fn select_filter_string_equal() {
    let doc = store();
    // In a filter, a quoted string comes as a `Key` after the operand.
    let r = run(&doc, filter_books(FilterToken::Equal, ParseToken::Key("reference".to_string()), "category")).ok().unwrap();
    assert_eq!(positions(&r), vec![vec![0, 0, 0]]);
    let r = run(&doc, filter_books(FilterToken::NotEqual, ParseToken::Key("reference".to_string()), "category")).ok().unwrap();
    assert_eq!(positions(&r), vec![vec![0, 0, 1], vec![0, 0, 2], vec![0, 0, 3]]);
}

#[test]
fn select_filter_without_match_gives_null() {
    let doc = store();
    let r = run(&doc, filter_books(FilterToken::Greater, number(100.0), "price")).ok().unwrap();
    assert_eq!(r.len(), 1);
    assert!(values(&r)[0].is_none());
}

#[test]
fn select_filter_on_existence() {
    let doc = store();
    let tokens = vec![
        ParseToken::Absolute,
        ParseToken::In,
        key("store"),
        ParseToken::In,
        key("book"),
        ParseToken::Array,
        ParseToken::Relative,
        ParseToken::In,
        key("isbn"),
        ParseToken::ArrayEof,
    ];
    let r = run(&doc, tokens).ok().unwrap();
    assert_eq!(positions(&r), vec![vec![0, 0, 2], vec![0, 0, 3]]);
}

#[test]
fn select_filter_and_of_two_conditions() {
    let doc = store();
    let tokens = vec![
        ParseToken::Absolute,
        ParseToken::In,
        key("store"),
        ParseToken::In,
        key("book"),
        ParseToken::Array,
        ParseToken::Relative,
        ParseToken::In,
        key("price"),
        number(8.0),
        ParseToken::Filter(FilterToken::Greater),
        ParseToken::Relative,
        ParseToken::In,
        key("price"),
        number(10.0),
        ParseToken::Filter(FilterToken::Little),
        ParseToken::Filter(FilterToken::And),
        ParseToken::ArrayEof,
    ];
    let r = run(&doc, tokens).ok().unwrap();
    assert_eq!(positions(&r), vec![vec![0, 0, 0], vec![0, 0, 2]]);
}

#[test]
fn select_filter_or_of_two_conditions() {
    let doc = store();
    let tokens = vec![
        ParseToken::Absolute,
        ParseToken::In,
        key("store"),
        ParseToken::In,
        key("book"),
        ParseToken::Array,
        ParseToken::Relative,
        ParseToken::In,
        key("price"),
        number(9.0),
        ParseToken::Filter(FilterToken::Little),
        ParseToken::Relative,
        ParseToken::In,
        key("price"),
        number(20.0),
        ParseToken::Filter(FilterToken::Greater),
        ParseToken::Filter(FilterToken::Or),
        ParseToken::ArrayEof,
    ];
    let r = run(&doc, tokens).ok().unwrap();
    assert_eq!(positions(&r), vec![vec![0, 0, 0], vec![0, 0, 2], vec![0, 0, 3]]);
}

#[test]
fn select_filter_with_literal_on_the_left_mirrors() {
    let doc = store();
    let left = vec![
        ParseToken::Absolute,
        ParseToken::In,
        key("store"),
        ParseToken::In,
        key("book"),
        ParseToken::Array,
        number(10.0),
        ParseToken::Relative,
        ParseToken::In,
        key("price"),
        ParseToken::Filter(FilterToken::Little),
        ParseToken::ArrayEof,
    ];
    let a = run(&doc, left).ok().unwrap();
    let b = run(&doc, filter_books(FilterToken::Greater, number(10.0), "price")).ok().unwrap();
    assert_eq!(positions(&a), positions(&b));
}

#[test]
fn select_filter_with_root_reference() {
    let doc = store();
    // $.store.book[?(@.price < $.expensive)]
    let tokens = vec![
        ParseToken::Absolute,
        ParseToken::In,
        key("store"),
        ParseToken::In,
        key("book"),
        ParseToken::Array,
        ParseToken::Relative,
        ParseToken::In,
        key("price"),
        ParseToken::Absolute,
        ParseToken::In,
        key("expensive"),
        ParseToken::Filter(FilterToken::Little),
        ParseToken::ArrayEof,
    ];
    let r = run(&doc, tokens).ok().unwrap();
    assert_eq!(positions(&r), vec![vec![0, 0, 0], vec![0, 0, 2]]);
}

#[test]
fn select_filter_keys_in_filter_halts() {
    let doc = store();
    let tokens = vec![
        ParseToken::Absolute,
        ParseToken::Array,
        ParseToken::Relative,
        ParseToken::Array,
        ParseToken::Keys(vec!["a".to_string()]),
        ParseToken::ArrayEof,
        ParseToken::ArrayEof,
    ];
    let r = run(&doc, tokens);
    assert!(matches!(r, Err(JsonPathError::Halted(jsonpath_lib::error::Halt::KeysInFilter))));
}

#[test]
fn select_filter_missing_operand_halts() {
    let doc = store();
    let r = run(&doc, vec![ParseToken::Absolute, ParseToken::Filter(FilterToken::Equal)]);
    assert!(matches!(r, Err(JsonPathError::Halted(jsonpath_lib::error::Halt::EmptyTermRight))));
}

#[test]
fn select_non_finite_number_halts() {
    let doc = store();
    let r = run(&doc, vec![ParseToken::Absolute, ParseToken::Array, number(f64::NAN), ParseToken::ArrayEof]);
    assert!(matches!(r, Err(JsonPathError::Halted(jsonpath_lib::error::Halt::NotFinite))));
}

#[test]
fn select_without_path_is_empty_path() {
    let doc = store();
    let mut s = Selector::new();
    s.value(&doc);
    assert!(matches!(s.select(), Err(JsonPathError::EmptyPath)));
}

#[test]
fn select_without_value_is_empty_value() {
    let mut s = Selector::new();
    assert!(s.str_path(Ok(Node { tokens: vec![ParseToken::Absolute] })).is_ok());
    assert!(matches!(s.select(), Err(JsonPathError::EmptyValue)));
}

#[test]
fn select_path_error_is_reported() {
    let mut s = Selector::new();
    let r = s.str_path(Err("unexpected token".to_string()));
    match r {
        Err(e) => assert_eq!(e.message(), "path error: \nunexpected token\n"),
        Ok(()) => panic!("expected an error"),
    }
}

#[test]
fn select_with_compiled_path_uses_it_once() {
    let doc = arr(vec![posint(1)]);
    let node = Node { tokens: vec![ParseToken::Absolute, ParseToken::Array, number(0.0), ParseToken::ArrayEof] };
    let mut s = Selector::new();
    s.compiled_path(&node);
    s.value(&doc);
    let r = s.select().ok().unwrap();
    assert!(same(&r, &[posint(1)]));
    assert!(s.node_ref().is_none());
    assert!(matches!(s.select(), Err(JsonPathError::EmptyPath)));
}

#[test]
fn select_again_after_reset_value() {
    let doc = obj(vec![("a", posint(1))]);
    let mut s = Selector::new();
    assert!(s.str_path(Ok(Node { tokens: vec![ParseToken::Absolute, ParseToken::In, key("a")] })).is_ok());
    s.value(&doc);
    let first = s.select().ok().unwrap();
    assert!(same(&first, &[posint(1)]));
    assert!(s.node_ref().is_some());
    s.reset_value();
    let second = s.select().ok().unwrap();
    assert!(same(&second, &[posint(1)]));
}

#[test]
fn select_token_by_token_is_select_by_path() {
    let doc = store();
    let tokens = vec![ParseToken::Absolute, ParseToken::Leaves, key("price")];
    let empty = Node { tokens: vec![] };
    let mut s = Selector::new();
    s.value(&doc);
    for t in tokens.iter() {
        assert!(s.visit_token(t).is_ok());
    }
    s.compiled_path(&empty);
    let a = s.select().ok().unwrap();
    let b = run(&doc, tokens).ok().unwrap();
    assert_eq!(b.len(), 5);
    assert_eq!(positions(&a), positions(&b));
}

#[test]
fn selected_nodes_are_nodes_of_the_document() {
    let doc = store();
    let r = run(&doc, vec![ParseToken::Absolute, ParseToken::Leaves, ParseToken::All]).ok().unwrap();
    for x in r.iter() {
        if let ValueRef::Node(p, v) = x {
            let mut at = &doc;
            for i in p.iter() {
                at = match at {
                    JsonValue::Array(a) => &a[*i],
                    JsonValue::Object(m) => &m[*i].1,
                    _ => panic!("position leads nowhere"),
                };
            }
            assert!(json_equal(at, v));
        }
    }
}

#[test]
fn select_negative_integer_compares_as_double() {
    let doc = arr(vec![obj(vec![("v", neg(-5))]), obj(vec![("v", posint(3))])]);
    let tokens = vec![
        ParseToken::Absolute,
        ParseToken::Array,
        ParseToken::Relative,
        ParseToken::In,
        key("v"),
        number(0.0),
        ParseToken::Filter(FilterToken::Little),
        ParseToken::ArrayEof,
    ];
    let r = run(&doc, tokens).ok().unwrap();
    assert_eq!(positions(&r), vec![vec![0]]);
}

#[test]
fn select_filter_member_reaches_each_object_once() {
    // $[0,0][?(@.x)]: the selection holds the first element twice, the
    // filter keeps it once
    let doc = arr(vec![obj(vec![("x", posint(1))]), obj(vec![("y", posint(2))])]);
    let tokens = vec![
        ParseToken::Absolute,
        ParseToken::Array,
        ParseToken::Union(vec![0, 0]),
        ParseToken::ArrayEof,
        ParseToken::Array,
        ParseToken::Relative,
        ParseToken::In,
        key("x"),
        ParseToken::ArrayEof,
    ];
    let r = run(&doc, tokens).ok().unwrap();
    assert_eq!(positions(&r), vec![vec![0]]);
}

#[test]
fn select_twice_gives_the_same_selection() {
    let doc = store();
    let mut s = Selector::new();
    let tokens = vec![
        ParseToken::Absolute,
        ParseToken::In,
        key("store"),
        ParseToken::In,
        key("book"),
        ParseToken::Array,
        ParseToken::All,
        ParseToken::ArrayEof,
        ParseToken::In,
        key("author"),
    ];
    assert!(s.str_path(Ok(Node { tokens })).is_ok());
    s.value(&doc);
    let first = s.select().ok().unwrap();
    let second = s.select().ok().unwrap();
    assert_eq!(first.len(), 4);
    assert_eq!(positions(&first), positions(&second));
}

#[test]
fn select_key_path_without_value_is_empty_value() {
    let mut s = Selector::new();
    let tokens = vec![ParseToken::Absolute, ParseToken::In, key("a"), ParseToken::Array, number(0.0), ParseToken::ArrayEof];
    assert!(s.str_path(Ok(Node { tokens })).is_ok());
    assert!(matches!(s.select(), Err(JsonPathError::EmptyValue)));
}
