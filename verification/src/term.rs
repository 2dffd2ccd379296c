//! Terms of filter expressions and the comparisons between them.
use vstd::prelude::*;
use crate::json::{JsonValue, JsonNumber, json_eq, is_nan_bits, order_key, is_nan, number_order_key};
use crate::refs::{ValueRef, RefModel, models, find_key, lookup, lemma_models_push, duplicate_all};
use crate::seqs::{keep, unique_by, lemma_keep_step, lemma_keep_subset, lemma_unique_subset, lemma_keep_map, lemma_unique_map};
use crate::outside::{Tagged, tagged_eq, equal_in, differs_in, array_intersect, array_intersect_differing, array_union};
use crate::text::{str_lt, string_lt};

verus! {

/// The key by which a filter reached its nodes: a member name, or all
/// members.
pub enum FilterKey {
    String(String),
    All,
}

pub enum KeyModel {
    String(Seq<char>),
    All,
}

impl View for FilterKey {
    type V = KeyModel;

    open spec fn view(&self) -> KeyModel {
        match self {
            FilterKey::String(s) => KeyModel::String(s@),
            FilterKey::All => KeyModel::All,
        }
    }
}

/// A term of a filter expression: a literal, or nodes of the document
/// (with the key through which they were reached).
pub enum ExprTerm<'a> {
    String(String),
    Number(JsonNumber),
    Bool(bool),
    Json(Option<FilterKey>, Vec<ValueRef<'a>>),
}

pub enum TermModel {
    Str(Seq<char>),
    Num(JsonNumber),
    Bool(bool),
    Json(Option<KeyModel>, Seq<RefModel>),
}

pub open spec fn key_model(k: Option<FilterKey>) -> Option<KeyModel> {
    match k {
        Some(k) => Some(k@),
        None => None,
    }
}

impl<'a> View for ExprTerm<'a> {
    type V = TermModel;

    open spec fn view(&self) -> TermModel {
        match self {
            ExprTerm::String(s) => TermModel::Str(s@),
            ExprTerm::Number(n) => TermModel::Num(*n),
            ExprTerm::Bool(b) => TermModel::Bool(*b),
            ExprTerm::Json(k, v) => TermModel::Json(key_model(*k), models(v@)),
        }
    }
}

/// The comparison operators of filters.
#[derive(Clone, Copy, PartialEq, Eq)]
pub enum FilterOp {
    Eq,
    Ne,
    Gt,
    Ge,
    Lt,
    Le,
    And,
    Or,
}

impl FilterOp {
    /// The operator with its operands swapped (`a > b` is `b < a`).
    pub open spec fn reversed(self) -> FilterOp {
        match self {
            FilterOp::Gt => FilterOp::Lt,
            FilterOp::Ge => FilterOp::Le,
            FilterOp::Lt => FilterOp::Gt,
            FilterOp::Le => FilterOp::Ge,
            other => other,
        }
    }

    pub fn reverse(&self) -> (r: FilterOp)
        ensures
            r == self.reversed(),
    {
        match self {
            FilterOp::Gt => FilterOp::Lt,
            FilterOp::Ge => FilterOp::Le,
            FilterOp::Lt => FilterOp::Gt,
            FilterOp::Le => FilterOp::Ge,
            FilterOp::Eq => FilterOp::Eq,
            FilterOp::Ne => FilterOp::Ne,
            FilterOp::And => FilterOp::And,
            FilterOp::Or => FilterOp::Or,
        }
    }
}

// ---------------------------------------------------------------------------
// Comparisons of scalars

/// The operator applied to two booleans (`false < true`).
pub open spec fn bool_test(op: FilterOp, x: bool, y: bool) -> bool {
    match op {
        FilterOp::Eq => x == y,
        FilterOp::Ne => x != y,
        FilterOp::Gt => x && !y,
        FilterOp::Ge => x || !y,
        FilterOp::Lt => !x && y,
        FilterOp::Le => !x || y,
        FilterOp::And => x && y,
        FilterOp::Or => x || y,
    }
}

/// Whether the double with bits `x` is greater than zero.
pub open spec fn positive_double(x: u64) -> bool {
    !is_nan_bits(x) && order_key(x) > 0
}

/// The operator applied to two doubles given by their bits, as IEEE-754
/// compares them (every comparison with NaN is false but `!=`); `&&` and
/// `||` test whether the operands are greater than zero.
pub open spec fn double_test(op: FilterOp, x: u64, y: u64) -> bool {
    let nan = is_nan_bits(x) || is_nan_bits(y);
    let kx = order_key(x);
    let ky = order_key(y);
    match op {
        FilterOp::Eq => !nan && kx == ky,
        FilterOp::Ne => nan || kx != ky,
        FilterOp::Gt => !nan && kx > ky,
        FilterOp::Ge => !nan && kx >= ky,
        FilterOp::Lt => !nan && kx < ky,
        FilterOp::Le => !nan && kx <= ky,
        FilterOp::And => positive_double(x) && positive_double(y),
        FilterOp::Or => positive_double(x) || positive_double(y),
    }
}

/// The operator applied to two strings (ordered as `str`); `&&` and `||`
/// test whether the operands are non-empty.
pub open spec fn string_test(op: FilterOp, x: Seq<char>, y: Seq<char>) -> bool {
    match op {
        FilterOp::Eq => x == y,
        FilterOp::Ne => x != y,
        FilterOp::Gt => str_lt(y, x),
        FilterOp::Ge => !str_lt(x, y),
        FilterOp::Lt => str_lt(x, y),
        FilterOp::Le => !str_lt(y, x),
        FilterOp::And => x.len() > 0 && y.len() > 0,
        FilterOp::Or => x.len() > 0 || y.len() > 0,
    }
}

pub fn compare_bools(op: FilterOp, x: bool, y: bool) -> (r: bool)
    ensures
        r == bool_test(op, x, y),
{
    match op {
        FilterOp::Eq => x == y,
        FilterOp::Ne => x != y,
        FilterOp::Gt => x && !y,
        FilterOp::Ge => x || !y,
        FilterOp::Lt => !x && y,
        FilterOp::Le => !x || y,
        FilterOp::And => x && y,
        FilterOp::Or => x || y,
    }
}

pub fn compare_doubles(op: FilterOp, x: u64, y: u64) -> (r: bool)
    ensures
        r == double_test(op, x, y),
{
    let nan = is_nan(x) || is_nan(y);
    let kx = number_order_key(x);
    let ky = number_order_key(y);
    match op {
        FilterOp::Eq => !nan && kx == ky,
        FilterOp::Ne => nan || kx != ky,
        FilterOp::Gt => !nan && kx > ky,
        FilterOp::Ge => !nan && kx >= ky,
        FilterOp::Lt => !nan && kx < ky,
        FilterOp::Le => !nan && kx <= ky,
        FilterOp::And => (!is_nan(x) && kx > 0) && (!is_nan(y) && ky > 0),
        FilterOp::Or => (!is_nan(x) && kx > 0) || (!is_nan(y) && ky > 0),
    }
}

pub fn compare_strings(op: FilterOp, x: &String, y: &String) -> (r: bool)
    ensures
        r == string_test(op, x@, y@),
{
    match op {
        FilterOp::Eq => *x == *y,
        FilterOp::Ne => *x != *y,
        FilterOp::Gt => string_lt(y.as_str(), x.as_str()),
        FilterOp::Ge => !string_lt(x.as_str(), y.as_str()),
        FilterOp::Lt => string_lt(x.as_str(), y.as_str()),
        FilterOp::Le => !string_lt(y.as_str(), x.as_str()),
        FilterOp::And => !x.as_str().is_empty() && !y.as_str().is_empty(),
        FilterOp::Or => !x.as_str().is_empty() || !y.as_str().is_empty(),
    }
}


// ---------------------------------------------------------------------------
// Comparisons of nodes with a literal

/// The operator applied to a JSON value and a literal of the same kind;
/// false when the kinds differ.
pub open spec fn value_vs_literal(op: FilterOp, v: JsonValue, t: TermModel) -> bool {
    match (v, t) {
        (JsonValue::String(x), TermModel::Str(y)) => string_test(op, x@, y),
        (JsonValue::Number(x), TermModel::Num(y)) => double_test(op, x.f64_bits, y.f64_bits),
        (JsonValue::Bool(x), TermModel::Bool(y)) => bool_test(op, x, y),
        _ => false,
    }
}

/// Whether node `r` passes the comparison with literal `t`: the node's own
/// value, or for an object reached through member `k`, its member `k`.
pub open spec fn node_vs_literal(op: FilterOp, fk: Option<KeyModel>, r: RefModel, t: TermModel) -> bool {
    match r.value() {
        JsonValue::Object(m) => match fk {
            Some(KeyModel::String(k)) => match find_key(m@, k) {
                Some(i) => value_vs_literal(op, m@[i].1, t),
                None => false,
            },
            _ => false,
        },
        v => value_vs_literal(op, v, t),
    }
}

pub open spec fn literal_test(op: FilterOp, fk: Option<KeyModel>, t: TermModel) -> spec_fn(RefModel) -> bool {
    |r: RefModel| node_vs_literal(op, fk, r, t)
}

/// Nodes compared with a literal: the nodes that pass, or `false` when
/// none does.
pub open spec fn nodes_vs_literal(op: FilterOp, fk: Option<KeyModel>, v: Seq<RefModel>, t: TermModel) -> TermModel {
    let kept = keep(v, literal_test(op, fk, t));
    if kept.len() == 0 { TermModel::Bool(false) } else { TermModel::Json(None, kept) }
}

// ---------------------------------------------------------------------------
// Comparisons of nodes with nodes

pub open spec fn ref_eq() -> spec_fn(RefModel, RefModel) -> bool {
    |x: RefModel, y: RefModel| json_eq(x.value(), y.value())
}

pub open spec fn eq_in(b: Seq<RefModel>) -> spec_fn(RefModel) -> bool {
    |x: RefModel| exists|j: int| 0 <= j < b.len() && json_eq(x.value(), (#[trigger] b[j]).value())
}

pub open spec fn ne_in(b: Seq<RefModel>) -> spec_fn(RefModel) -> bool {
    |x: RefModel| exists|j: int| 0 <= j < b.len() && !json_eq(x.value(), (#[trigger] b[j]).value())
}

/// Two node lists compared: for `==` and `&&` the nodes of `a` (each value
/// once) equal to some node of `b`; for `!=` those that differ from some
/// node of `b`; for `||` the nodes of `a` then `b`, each value once; for
/// the orderings nothing.
pub open spec fn nodes_vs_nodes(op: FilterOp, a: Seq<RefModel>, b: Seq<RefModel>) -> Seq<RefModel> {
    match op {
        FilterOp::Eq | FilterOp::And => keep(unique_by(a, ref_eq()), eq_in(b)),
        FilterOp::Ne => keep(unique_by(a, ref_eq()), ne_in(b)),
        FilterOp::Or => unique_by(a + b, ref_eq()),
        _ => seq![],
    }
}

/// Two terms compared by `op`. A literal against nodes is the nodes against
/// the literal with the operator reversed; literals of different kinds
/// give `false`; node lists that come out empty give `false`.
pub open spec fn compare_terms(a: TermModel, b: TermModel, op: FilterOp) -> TermModel {
    match a {
        TermModel::Str(x) => match b {
            TermModel::Str(y) => TermModel::Bool(string_test(op, x, y)),
            TermModel::Json(fk, v) => nodes_vs_literal(op.reversed(), fk, v, a),
            _ => TermModel::Bool(false),
        },
        TermModel::Num(x) => match b {
            TermModel::Num(y) => TermModel::Bool(double_test(op, x.f64_bits, y.f64_bits)),
            TermModel::Json(fk, v) => nodes_vs_literal(op.reversed(), fk, v, a),
            _ => TermModel::Bool(false),
        },
        TermModel::Bool(x) => match b {
            TermModel::Bool(y) => TermModel::Bool(bool_test(op, x, y)),
            TermModel::Json(fk, v) => nodes_vs_literal(op.reversed(), fk, v, a),
            _ => TermModel::Bool(false),
        },
        TermModel::Json(fk, v) => match b {
            TermModel::Json(_, w) => {
                let r = nodes_vs_nodes(op, v, w);
                if r.len() == 0 { TermModel::Bool(false) } else { TermModel::Json(None, r) }
            },
            _ => nodes_vs_literal(op, fk, v, b),
        },
    }
}

/// Whether a JSON value passes the comparison with a literal.
fn value_vs_literal_exec(op: FilterOp, v: &JsonValue, t: &ExprTerm) -> (r: bool)
    ensures
        r == value_vs_literal(op, *v, t@),
{
    match (v, t) {
        (JsonValue::String(x), ExprTerm::String(y)) => compare_strings(op, x, y),
        (JsonValue::Number(x), ExprTerm::Number(y)) => compare_doubles(op, x.f64_bits, y.f64_bits),
        (JsonValue::Bool(x), ExprTerm::Bool(y)) => compare_bools(op, *x, *y),
        _ => false,
    }
}

/// Whether a node passes the comparison with a literal.
fn node_vs_literal_exec(op: FilterOp, fk: &Option<FilterKey>, r: &ValueRef, t: &ExprTerm) -> (b: bool)
    ensures
        b == node_vs_literal(op, key_model(*fk), r@, t@),
{
    match r.node_value() {
        Some(JsonValue::Object(m)) => match fk {
            Some(FilterKey::String(k)) => match lookup(m, k) {
                Some(i) => value_vs_literal_exec(op, &m[i].1, t),
                None => false,
            },
            _ => false,
        },
        Some(v) => value_vs_literal_exec(op, v, t),
        None => value_vs_literal_exec(op, &JsonValue::Null, t),
    }
}

/// Nodes compared with a literal.
fn nodes_vs_literal_exec<'a>(op: FilterOp, fk: &Option<FilterKey>, v: &Vec<ValueRef<'a>>, t: &ExprTerm) -> (r: ExprTerm<'a>)
    ensures
        r@ == nodes_vs_literal(op, key_model(*fk), models(v@), t@),
{
    let ghost test = literal_test(op, key_model(*fk), t@);
    let mut out: Vec<ValueRef<'a>> = Vec::new();
    for i in 0..v.len()
        invariant
            test == literal_test(op, key_model(*fk), t@),
            models(out@) == keep(models(v@).take(i as int), test),
    {
        let pass = node_vs_literal_exec(op, fk, &v[i], t);
        proof { lemma_keep_step(models(v@), test, i as int); }
        if pass {
            let d = v[i].duplicate();
            proof { lemma_models_push(out@, d); }
            out.push(d);
        }
    }
    proof { crate::walk::lemma_take_all(models(v@)); }
    if out.len() == 0 {
        ExprTerm::Bool(false)
    } else {
        ExprTerm::Json(None, out)
    }
}


/// The model of the node that a tagged value stands for.
pub open spec fn untag<'b>(cm: Seq<RefModel>) -> spec_fn(Tagged<'b>) -> RefModel {
    |t: Tagged<'b>| cm[t.pos as int]
}

/// `ts` tags positions `base..base + ts.len()` of `cm` with their values.
pub open spec fn tags_of<'b>(ts: Seq<Tagged<'b>>, cm: Seq<RefModel>, base: int) -> bool {
    forall|k: int| 0 <= k < ts.len() ==> (#[trigger] ts[k]).pos == base + k && base + k < cm.len()
        && *ts[k].value == cm[base + k].value()
}

/// Tags the nodes of `v` with positions from `base` on.
fn tag_all<'a, 'b>(v: &'b Vec<ValueRef<'a>>, null: &'b JsonValue, base: usize, ghost_cm: Ghost<Seq<RefModel>>) -> (r: Vec<Tagged<'b>>)
    requires
        *null == JsonValue::Null,
        base + v@.len() <= ghost_cm@.len(),
        base + v@.len() <= usize::MAX,
        forall|k: int| 0 <= k < v@.len() ==> ghost_cm@[base + k] == (#[trigger] v@[k])@,
    ensures
        r@.len() == v@.len(),
        tags_of(r@, ghost_cm@, base as int),
{
    let mut r: Vec<Tagged<'b>> = Vec::new();
    for i in 0..v.len()
        invariant
            *null == JsonValue::Null,
            base + v@.len() <= ghost_cm@.len(),
            base + v@.len() <= usize::MAX,
            forall|k: int| 0 <= k < v@.len() ==> ghost_cm@[base + k] == (#[trigger] v@[k])@,
            r@.len() == i,
            tags_of(r@, ghost_cm@, base as int),
    {
        let value: &'b JsonValue = match v[i].node_value() {
            Some(x) => x,
            None => null,
        };
        assert(ghost_cm@[base + i] == v@[i as int]@);
        r.push(Tagged { value, pos: base + i });
    }
    r
}

proof fn lemma_tags_map<'b>(ts: Seq<Tagged<'b>>, cm: Seq<RefModel>, base: int, part: Seq<RefModel>)
    requires
        tags_of(ts, cm, base),
        ts.len() == part.len(),
        forall|k: int| 0 <= k < part.len() ==> cm[base + k] == #[trigger] part[k],
    ensures
        ts.map_values(untag(cm)) == part,
        forall|i: int, j: int| 0 <= i < ts.len() && 0 <= j < ts.len()
            ==> tagged_eq()(#[trigger] ts[i], #[trigger] ts[j]) == ref_eq()(untag(cm)(ts[i]), untag(cm)(ts[j])),
{
    assert forall|k: int| 0 <= k < ts.len() implies #[trigger] ts.map_values(untag(cm))[k] == part[k] by {
        assert(ts[k].pos == base + k);
    }
    assert(ts.map_values(untag(cm)) =~= part);
    assert forall|i: int, j: int| 0 <= i < ts.len() && 0 <= j < ts.len()
        implies tagged_eq()(#[trigger] ts[i], #[trigger] ts[j]) == ref_eq()(untag(cm)(ts[i]), untag(cm)(ts[j])) by {
        assert(ts[i].pos == base + i);
        assert(ts[j].pos == base + j);
    }
}

/// Two node lists compared (see `nodes_vs_nodes`).
fn compare_nodes<'a>(op: FilterOp, a: &Vec<ValueRef<'a>>, b: &Vec<ValueRef<'a>>) -> (r: Vec<ValueRef<'a>>)
    ensures
        models(r@) == nodes_vs_nodes(op, models(a@), models(b@)),
{
    match op {
        FilterOp::Gt | FilterOp::Ge | FilterOp::Lt | FilterOp::Le => {
            return Vec::new();
        },
        _ => {},
    }
    let ghost ma = models(a@);
    let ghost mb = models(b@);
    let mut all = duplicate_all(a);
    let mut rest = duplicate_all(b);
    all.append(&mut rest);
    let ghost cm = ma + mb;
    assert(models(all@) =~= cm);
    let n_all = all.len();
    assert(n_all == a@.len() + b@.len());
    let null = JsonValue::Null;
    assert forall|k: int| 0 <= k < a@.len() implies cm[0 + k] == (#[trigger] a@[k])@ by {
        assert(ma[k] == a@[k]@);
    }
    assert forall|k: int| 0 <= k < b@.len() implies cm[a@.len() + k] == (#[trigger] b@[k])@ by {
        assert(mb[k] == b@[k]@);
    }
    let ta = tag_all(a, &null, 0, Ghost(cm));
    let tb = tag_all(b, &null, a.len(), Ghost(cm));
    let ghost g = untag::<'_>(cm);
    proof {
        assert forall|k: int| 0 <= k < ma.len() implies cm[0 + k] == #[trigger] ma[k] by {}
        assert forall|k: int| 0 <= k < mb.len() implies cm[a@.len() + k] == #[trigger] mb[k] by {}
        lemma_tags_map(ta@, cm, 0, ma);
        lemma_tags_map(tb@, cm, a@.len() as int, mb);
    }
    let ghost ta_s = ta@;
    let ghost tb_s = tb@;
    let tagged = match op {
        FilterOp::Ne => array_intersect_differing(&ta, tb),
        FilterOp::Or => array_union(&ta, tb),
        _ => array_intersect(&ta, tb),
    };
    proof {
        if op == FilterOp::Or {
            let s = ta_s + tb_s;
            assert(s.map_values(g) =~= ma + mb);
            assert(tags_of(s, cm, 0)) by {
                assert forall|k: int| 0 <= k < s.len() implies (#[trigger] s[k]).pos == 0 + k && 0 + k < cm.len()
                    && *s[k].value == cm[0 + k].value() by {
                    if k >= ta_s.len() {
                        assert(s[k] == tb_s[k - ta_s.len()]);
                    }
                }
            }
            lemma_tags_map(s, cm, 0, ma + mb);
            lemma_unique_map(s, tagged_eq(), g, ref_eq());
            lemma_unique_subset(s, tagged_eq());
            assert forall|k: int| 0 <= k < tagged@.len() implies (#[trigger] tagged@[k]).pos < cm.len() by {
                assert(s.contains(tagged@[k]));
                let i = choose|i: int| 0 <= i < s.len() && s[i] == tagged@[k];
                assert(s[i].pos == 0 + i);
            }
        } else {
            lemma_unique_map(ta_s, tagged_eq(), g, ref_eq());
            lemma_unique_subset(ta_s, tagged_eq());
            let u = unique_by(ta_s, tagged_eq());
            let (pa, pb) = if op == FilterOp::Ne { (differs_in(tb_s), ne_in(mb)) } else { (equal_in(tb_s), eq_in(mb)) };
            assert forall|i: int| 0 <= i < u.len() implies pa(#[trigger] u[i]) == pb(g(u[i])) by {
                assert(ta_s.contains(u[i]));
                let k = choose|k: int| 0 <= k < ta_s.len() && ta_s[k] == u[i];
                assert(ta_s[k].pos == k);
                if pa(u[i]) {
                    let j = choose|j: int| 0 <= j < tb_s.len() && (if op == FilterOp::Ne { !json_eq(*u[i].value, *(#[trigger] tb_s[j]).value) } else { json_eq(*u[i].value, *(#[trigger] tb_s[j]).value) });
                    assert(tb_s[j].pos == a@.len() + j);
                    assert(mb[j] == cm[a@.len() + j]);
                }
                if pb(g(u[i])) {
                    let j = choose|j: int| 0 <= j < mb.len() && (if op == FilterOp::Ne { !json_eq(g(u[i]).value(), (#[trigger] mb[j]).value()) } else { json_eq(g(u[i]).value(), (#[trigger] mb[j]).value()) });
                    assert(tb_s[j].pos == a@.len() + j);
                    assert(mb[j] == cm[a@.len() + j]);
                }
            }
            lemma_keep_map(u, pa, g, pb);
            lemma_keep_subset(u, pa);
            assert forall|k: int| 0 <= k < tagged@.len() implies (#[trigger] tagged@[k]).pos < cm.len() by {
                assert(u.contains(tagged@[k]));
                let j = choose|j: int| 0 <= j < u.len() && u[j] == tagged@[k];
                assert(ta_s.contains(u[j]));
                let i = choose|i: int| 0 <= i < ta_s.len() && ta_s[i] == u[j];
                assert(ta_s[i].pos == 0 + i);
            }
        }
    }
    let mut out: Vec<ValueRef<'a>> = Vec::new();
    for i in 0..tagged.len()
        invariant
            models(all@) == cm,
            g == untag::<'_>(cm),
            forall|k: int| 0 <= k < tagged@.len() ==> (#[trigger] tagged@[k]).pos < cm.len(),
            models(out@) == tagged@.take(i as int).map_values(g),
    {
        let t = tagged[i];
        assert(t.pos < cm.len());
        assert(models(all@)[t.pos as int] == all@[t.pos as int]@);
        let d = all[t.pos].duplicate();
        proof { lemma_models_push(out@, d); }
        out.push(d);
        assert(tagged@.take(i + 1).map_values(g) =~= tagged@.take(i as int).map_values(g).push(g(t)));
    }
    proof { crate::walk::lemma_take_all(tagged@); }
    out
}


impl<'a> ExprTerm<'a> {
    /// Compares this term with `other` by `op` (see `compare_terms`).
    pub fn compare(&self, other: &ExprTerm<'a>, op: FilterOp) -> (r: ExprTerm<'a>)
        ensures
            r@ == compare_terms(self@, other@, op),
    {
        match self {
            ExprTerm::String(x) => match other {
                ExprTerm::String(y) => ExprTerm::Bool(compare_strings(op, x, y)),
                ExprTerm::Json(fk, v) => nodes_vs_literal_exec(op.reverse(), fk, v, self),
                _ => ExprTerm::Bool(false),
            },
            ExprTerm::Number(x) => match other {
                ExprTerm::Number(y) => ExprTerm::Bool(compare_doubles(op, x.f64_bits, y.f64_bits)),
                ExprTerm::Json(fk, v) => nodes_vs_literal_exec(op.reverse(), fk, v, self),
                _ => ExprTerm::Bool(false),
            },
            ExprTerm::Bool(x) => match other {
                ExprTerm::Bool(y) => ExprTerm::Bool(compare_bools(op, *x, *y)),
                ExprTerm::Json(fk, v) => nodes_vs_literal_exec(op.reverse(), fk, v, self),
                _ => ExprTerm::Bool(false),
            },
            ExprTerm::Json(fk, v) => match other {
                ExprTerm::Json(_, w) => {
                    let r = compare_nodes(op, v, w);
                    if r.len() == 0 {
                        ExprTerm::Bool(false)
                    } else {
                        ExprTerm::Json(None, r)
                    }
                },
                _ => nodes_vs_literal_exec(op, fk, v, other),
            },
        }
    }
}

/// The term that a list of selected nodes stands for in a filter: the
/// literal itself when it is a single number, string or boolean, else the
/// nodes.
pub open spec fn term_of_nodes(v: Seq<RefModel>) -> TermModel {
    if v.len() == 1 {
        match v[0].value() {
            JsonValue::Number(n) => TermModel::Num(n),
            JsonValue::String(s) => TermModel::Str(s@),
            JsonValue::Bool(b) => TermModel::Bool(b),
            _ => TermModel::Json(None, v),
        }
    } else {
        TermModel::Json(None, v)
    }
}

pub fn nodes_term<'a>(v: &Vec<ValueRef<'a>>) -> (r: ExprTerm<'a>)
    ensures
        r@ == term_of_nodes(models(v@)),
{
    if v.len() == 1 {
        assert(models(v@)[0] == v@[0]@);
        match v[0].node_value() {
            Some(JsonValue::Number(n)) => return ExprTerm::Number(*n),
            Some(JsonValue::String(s)) => return ExprTerm::String(s.clone()),
            Some(JsonValue::Bool(b)) => return ExprTerm::Bool(*b),
            _ => {},
        }
    }
    ExprTerm::Json(None, duplicate_all(v))
}

} // verus!
