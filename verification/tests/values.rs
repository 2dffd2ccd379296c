use jsonpath_lib::error::{Halt, JsonPathError};
use jsonpath_lib::json::{f64_bits_as_isize, is_nan, json_equal, number_equal, JsonNumber, JsonValue, NumberRepr};
use jsonpath_lib::refs::ValueRef;
use jsonpath_lib::term::{compare_bools, compare_doubles, compare_strings, nodes_term, ExprTerm, FilterKey, FilterOp};
use jsonpath_lib::walk::abs_index;

fn posint(n: u64) -> JsonNumber {
    JsonNumber { repr: NumberRepr::PosInt(n), f64_bits: (n as f64).to_bits() }
}

fn float(x: f64) -> JsonNumber {
    JsonNumber { repr: NumberRepr::Float(x.to_bits()), f64_bits: x.to_bits() }
}

fn text(s: &str) -> JsonValue {
    JsonValue::String(s.to_string())
}

fn obj(v: Vec<(&str, JsonValue)>) -> JsonValue {
    JsonValue::Object(v.into_iter().map(|(k, x)| (k.to_string(), x)).collect())
}

fn node<'a>(i: usize, v: &'a JsonValue) -> ValueRef<'a> {
    ValueRef::Node(vec![i], v)
}

fn positions(t: &ExprTerm) -> Option<Vec<Vec<usize>>> {
    match t {
        ExprTerm::Json(_, v) => Some(
            v.iter()
                .map(|x| match x {
                    ValueRef::Node(p, _) => p.clone(),
                    ValueRef::Null => vec![],
                })
                .collect(),
        ),
        _ => None,
    }
}

fn is_false(t: &ExprTerm) -> bool {
    matches!(t, ExprTerm::Bool(false))
}

#[test]
fn abs_index_of_subscripts() {
    assert_eq!(abs_index(2, 5), 2);
    assert_eq!(abs_index(7, 5), 7);
    assert_eq!(abs_index(-1, 5), 4);
    assert_eq!(abs_index(-5, 5), 0);
    assert_eq!(abs_index(-6, 5), usize::MAX);
}

#[test]
fn double_to_isize_truncates_and_saturates() {
    assert_eq!(f64_bits_as_isize((2.7f64).to_bits()), 2);
    assert_eq!(f64_bits_as_isize((-2.7f64).to_bits()), -2);
    assert_eq!(f64_bits_as_isize((-0.5f64).to_bits()), 0);
    assert_eq!(f64_bits_as_isize((0.0f64).to_bits()), 0);
    assert_eq!(f64_bits_as_isize(f64::NAN.to_bits()), 0);
    assert_eq!(f64_bits_as_isize(f64::INFINITY.to_bits()), isize::MAX);
    assert_eq!(f64_bits_as_isize(f64::NEG_INFINITY.to_bits()), isize::MIN);
    assert_eq!(f64_bits_as_isize((1e300f64).to_bits()), isize::MAX);
    assert_eq!(f64_bits_as_isize((-1e300f64).to_bits()), isize::MIN);
    assert_eq!(f64_bits_as_isize((123456789.0f64).to_bits()), 123456789);
    assert_eq!(f64_bits_as_isize((4503599627370497.0f64).to_bits()), 4503599627370497);
}

#[test]
fn nan_detection() {
    assert!(is_nan(f64::NAN.to_bits()));
    assert!(!is_nan(f64::INFINITY.to_bits()));
    assert!(!is_nan((1.5f64).to_bits()));
}

#[test]
fn numbers_equal_as_serde_json_compares_them() {
    assert!(number_equal(&posint(1), &posint(1)));
    assert!(!number_equal(&posint(1), &posint(2)));
    assert!(!number_equal(&posint(1), &float(1.0)));
    assert!(number_equal(&float(0.0), &float(-0.0)));
    assert!(!number_equal(&float(f64::NAN), &float(f64::NAN)));
    let neg = JsonNumber { repr: NumberRepr::NegInt(-3), f64_bits: (-3.0f64).to_bits() };
    assert!(number_equal(&neg, &neg));
    assert!(!number_equal(&neg, &posint(3)));
}

#[test]
fn json_values_equal_deeply() {
    let a = obj(vec![("k", JsonValue::Array(vec![JsonValue::Null, JsonValue::Bool(true), text("s")]))]);
    let b = obj(vec![("k", JsonValue::Array(vec![JsonValue::Null, JsonValue::Bool(true), text("s")]))]);
    let c = obj(vec![("k", JsonValue::Array(vec![JsonValue::Null, JsonValue::Bool(false), text("s")]))]);
    let d = obj(vec![("j", JsonValue::Array(vec![JsonValue::Null, JsonValue::Bool(true), text("s")]))]);
    assert!(json_equal(&a, &b));
    assert!(!json_equal(&a, &c));
    assert!(!json_equal(&a, &d));
    assert!(!json_equal(&JsonValue::Null, &JsonValue::Bool(false)));
    assert!(json_equal(&JsonValue::Number(float(2.5)), &JsonValue::Number(float(2.5))));
}

#[test]
fn strings_compare_in_str_order() {
    let a = "a".to_string();
    let b = "b".to_string();
    let ab = "ab".to_string();
    let e = "".to_string();
    assert!(compare_strings(FilterOp::Lt, &a, &b));
    assert!(!compare_strings(FilterOp::Gt, &a, &b));
    assert!(compare_strings(FilterOp::Gt, &ab, &a));
    assert!(compare_strings(FilterOp::Ge, &a, &a));
    assert!(compare_strings(FilterOp::Le, &e, &a));
    assert!(compare_strings(FilterOp::Eq, &ab, &"ab".to_string()));
    assert!(compare_strings(FilterOp::Ne, &ab, &a));
    assert!(compare_strings(FilterOp::And, &a, &b));
    assert!(!compare_strings(FilterOp::And, &a, &e));
    assert!(compare_strings(FilterOp::Or, &e, &b));
    assert!(!compare_strings(FilterOp::Or, &e, &e));
    assert!(compare_strings(FilterOp::Lt, &"Z".to_string(), &"a".to_string()));
    assert!(compare_strings(FilterOp::Gt, &"é".to_string(), &"z".to_string()));
}

#[test]
fn doubles_compare_as_ieee() {
    let one = (1.0f64).to_bits();
    let two = (2.0f64).to_bits();
    let nan = f64::NAN.to_bits();
    let neg = (-3.0f64).to_bits();
    assert!(compare_doubles(FilterOp::Lt, one, two));
    assert!(compare_doubles(FilterOp::Gt, one, neg));
    assert!(compare_doubles(FilterOp::Le, neg, neg));
    assert!(compare_doubles(FilterOp::Eq, (0.0f64).to_bits(), (-0.0f64).to_bits()));
    assert!(!compare_doubles(FilterOp::Eq, nan, nan));
    assert!(compare_doubles(FilterOp::Ne, nan, nan));
    assert!(!compare_doubles(FilterOp::Lt, nan, one));
    assert!(!compare_doubles(FilterOp::Ge, one, nan));
    assert!(compare_doubles(FilterOp::And, one, two));
    assert!(!compare_doubles(FilterOp::And, one, neg));
    assert!(compare_doubles(FilterOp::Or, neg, one));
    assert!(!compare_doubles(FilterOp::Or, neg, (0.0f64).to_bits()));
}

#[test]
fn bools_compare_false_before_true() {
    assert!(compare_bools(FilterOp::Gt, true, false));
    assert!(!compare_bools(FilterOp::Lt, true, false));
    assert!(compare_bools(FilterOp::Ge, true, true));
    assert!(compare_bools(FilterOp::Eq, false, false));
    assert!(compare_bools(FilterOp::Or, false, true));
    assert!(!compare_bools(FilterOp::And, false, true));
}

#[test]
fn operators_reverse() {
    assert!(matches!(FilterOp::Gt.reverse(), FilterOp::Lt));
    assert!(matches!(FilterOp::Le.reverse(), FilterOp::Ge));
    assert!(matches!(FilterOp::Eq.reverse(), FilterOp::Eq));
    assert!(matches!(FilterOp::Or.reverse(), FilterOp::Or));
}

#[test]
fn literals_of_different_kinds_compare_false() {
    let a = ExprTerm::String("1".to_string());
    let b = ExprTerm::Number(posint(1));
    assert!(is_false(&a.compare(&b, FilterOp::Eq)));
    assert!(is_false(&b.compare(&a, FilterOp::Ne)));
    assert!(is_false(&ExprTerm::Bool(true).compare(&b, FilterOp::Eq)));
    assert!(matches!(ExprTerm::Number(posint(1)).compare(&ExprTerm::Number(float(1.0)), FilterOp::Eq), ExprTerm::Bool(true)));
}

#[test]
fn nodes_against_literal_keep_passing_nodes() {
    let x = JsonValue::Number(posint(1));
    let y = JsonValue::Number(posint(5));
    let z = text("s");
    let nodes = ExprTerm::Json(None, vec![node(0, &x), node(1, &y), node(2, &z)]);
    let r = nodes.compare(&ExprTerm::Number(posint(2)), FilterOp::Gt);
    assert_eq!(positions(&r), Some(vec![vec![1]]));
    let mirrored = ExprTerm::Number(posint(2)).compare(&nodes, FilterOp::Lt);
    assert_eq!(positions(&mirrored), Some(vec![vec![1]]));
    assert!(is_false(&nodes.compare(&ExprTerm::Number(posint(9)), FilterOp::Gt)));
}

#[test]
fn member_of_objects_compared_with_literal() {
    let a = obj(vec![("p", JsonValue::Number(posint(3)))]);
    let b = obj(vec![("p", JsonValue::Number(posint(30)))]);
    let c = obj(vec![("q", JsonValue::Number(posint(30)))]);
    let nodes = ExprTerm::Json(Some(FilterKey::String("p".to_string())), vec![node(0, &a), node(1, &b), node(2, &c)]);
    let r = nodes.compare(&ExprTerm::Number(posint(10)), FilterOp::Ge);
    assert_eq!(positions(&r), Some(vec![vec![1]]));
    let all = ExprTerm::Json(Some(FilterKey::All), vec![node(0, &a), node(1, &b)]);
    assert!(is_false(&all.compare(&ExprTerm::Number(posint(1)), FilterOp::Ge)));
}

#[test]
fn node_lists_compared() {
    let one = JsonValue::Number(posint(1));
    let one_again = JsonValue::Number(posint(1));
    let two = JsonValue::Number(posint(2));
    let three = JsonValue::Number(posint(3));
    let a = ExprTerm::Json(None, vec![node(0, &one), node(1, &two), node(2, &one_again)]);
    let b = ExprTerm::Json(None, vec![node(5, &two), node(6, &three)]);
    // == keeps the nodes of the left list (each value once) equal to some
    // node of the right list
    assert_eq!(positions(&a.compare(&b, FilterOp::Eq)), Some(vec![vec![1]]));
    assert_eq!(positions(&a.compare(&b, FilterOp::And)), Some(vec![vec![1]]));
    // != keeps those that differ from some node of the right list
    assert_eq!(positions(&a.compare(&b, FilterOp::Ne)), Some(vec![vec![0], vec![1]]));
    // || is the union, each value once
    assert_eq!(positions(&a.compare(&b, FilterOp::Or)), Some(vec![vec![0], vec![1], vec![6]]));
    // the orderings give nothing
    assert!(is_false(&a.compare(&b, FilterOp::Lt)));
    let c = ExprTerm::Json(None, vec![node(7, &three)]);
    let d = ExprTerm::Json(None, vec![node(8, &one)]);
    assert!(is_false(&c.compare(&d, FilterOp::Eq)));
}

#[test]
fn single_scalar_selection_is_a_literal() {
    let n = JsonValue::Number(posint(4));
    let s = text("t");
    let b = JsonValue::Bool(true);
    let o = obj(vec![]);
    assert!(matches!(nodes_term(&vec![node(0, &n)]), ExprTerm::Number(_)));
    assert!(matches!(nodes_term(&vec![node(0, &s)]), ExprTerm::String(_)));
    assert!(matches!(nodes_term(&vec![node(0, &b)]), ExprTerm::Bool(true)));
    assert!(matches!(nodes_term(&vec![node(0, &o)]), ExprTerm::Json(None, _)));
    assert!(matches!(nodes_term(&vec![node(0, &n), node(1, &s)]), ExprTerm::Json(None, _)));
    assert!(matches!(nodes_term(&vec![]), ExprTerm::Json(None, _)));
}

#[test]
fn error_messages() {
    assert_eq!(JsonPathError::EmptyPath.message(), "path not set");
    assert_eq!(JsonPathError::EmptyValue.message(), "json value not set");
    assert_eq!(JsonPathError::Path("p".to_string()).message(), "path error: \np\n");
    assert_eq!(JsonPathError::Serde("s".to_string()).message(), "serde error: \ns\n");
    assert_eq!(JsonPathError::Halted(Halt::ZeroStep).message(), "evaluation halted");
}
