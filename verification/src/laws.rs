//! Properties that hold across the library's operations.
use vstd::prelude::*;
use crate::json::{JsonValue, JsonNumber, NumberRepr, resolve, double_as_isize, json_eq, lemma_json_eq_symmetric,
    lemma_json_eq_transitive};
use crate::refs::{RefModel, find_key, lemma_find_key_some};
use crate::seqs::{keep, unique_by, lemma_keep_subset, lemma_unique_subset, lemma_unique_distinct, lemma_keep_passes,
    lemma_keep_contains, lemma_unique_covers};
use crate::walk::{WalkKind, collect_at, walk_tree, walk_kids, walk, walk_fn, member_of, next_all,
    children_fn, members_of, members_fn, member_fn, element_at, elements_at, element_fn, objects_with_key,
    objects_with_key_kids, owk_fn, objects_with_key_in, dedup, stepped, element_index,
    slice_fn, slices, subscript_fn, union_fn, unions};
use crate::token::{TokenModel, FilterToken};
use crate::error::Halt;
use crate::term::{TermModel, KeyModel, FilterOp, compare_terms, nodes_vs_nodes, ref_eq, eq_in, ne_in, literal_test, term_of_nodes};
use crate::selector::{SelectorModel, Pending, with_current, with_selectors, sub_selector, root_ref, close_nested, closes, with_terms, with_tokens,
    map_current, descendants_fn, children_all_fn, members_all_fn, elements_all_fn, member_values_fn, top_is,
    step_relative, step_array_eof, step_all, in_filter, filter_nodes, step_key, step_keys, pop_operand, filter_op,
    step_filter, selection_or_empty, own_step, step, run, height, lemma_close_height, select_outcome, selected};
use crate::error::ErrorModel;
use crate::term::{bool_test, double_test, string_test, nodes_vs_literal};
use crate::json::{is_nan_bits, sign_bit, exponent_field, fraction_field};
use vstd::arithmetic::power2::pow2;
use crate::text::str_lt;
use crate::walk::{abs_index_spec, slice_of};
use crate::selector_mut::{SelectorMutModel, mut_select_outcome, plain_selector};

verus! {

// ---------------------------------------------------------------------------
// Nodes of a document

/// `r` is a node of document `d`: the value at its position in `d` (the
/// `null` of an empty subscript counts as well).
pub open spec fn node_in(d: JsonValue, r: RefModel) -> bool {
    match r {
        RefModel::Node(p, x) => resolve(d, p) == Some(x),
        RefModel::Null => true,
    }
}

/// Every reference of `s` is a node of `d`.
pub open spec fn all_in(d: JsonValue, s: Seq<RefModel>) -> bool {
    forall|k: int| 0 <= k < s.len() ==> node_in(d, #[trigger] s[k])
}

pub proof fn lemma_kid_index(x: JsonValue, i: int)
    requires
        0 <= i < x.kid_count(),
    ensures
        (i as usize) as int == i,
{
    match x {
        JsonValue::Array(v) => assert(v.len() == v@.len()),
        JsonValue::Object(m) => assert(m.len() == m@.len()),
        _ => {},
    }
}

/// A child of the node at position `p` is at position `p` followed by its index.
pub proof fn lemma_resolve_push(d: JsonValue, p: Seq<usize>, x: JsonValue, i: int)
    requires
        resolve(d, p) == Some(x),
        0 <= i < x.kid_count(),
    ensures
        resolve(d, p.push(i as usize)) == Some(x.kid(i)),
    decreases p.len(),
{
    lemma_kid_index(x, i);
    let q = p.push(i as usize);
    if p.len() == 0 {
        assert(x == d);
        assert(q.drop_first() =~= Seq::<usize>::empty());
        assert(q[0] == i as usize);
        assert(resolve(d.kid(i), q.drop_first()) == Some(d.kid(i)));
    } else {
        assert(q.drop_first() =~= p.drop_first().push(i as usize));
        assert(q[0] == p[0]);
        assert(p[0] < d.kid_count());
        lemma_resolve_push(d.kid(p[0] as int), p.drop_first(), x, i);
        assert(resolve(d, q) == resolve(d.kid(p[0] as int), q.drop_first()));
    }
}

proof fn lemma_child_in(d: JsonValue, r: RefModel, i: int)
    requires
        node_in(d, r),
        0 <= i < r.value().kid_count(),
    ensures
        node_in(d, r.child(i)),
{
    if let RefModel::Node(p, x) = r {
        lemma_resolve_push(d, p, x, i);
    }
}

proof fn lemma_children_in(d: JsonValue, r: RefModel)
    requires
        node_in(d, r),
    ensures
        all_in(d, r.children()),
{
    assert forall|k: int| 0 <= k < r.children().len() implies node_in(d, #[trigger] r.children()[k]) by {
        lemma_child_in(d, r, k);
    }
}

proof fn lemma_concat_in(d: JsonValue, a: Seq<RefModel>, b: Seq<RefModel>)
    requires
        all_in(d, a),
        all_in(d, b),
    ensures
        all_in(d, a + b),
{
    assert forall|k: int| 0 <= k < (a + b).len() implies node_in(d, #[trigger] (a + b)[k]) by {
        if k >= a.len() {
            assert((a + b)[k] == b[k - a.len()]);
        }
    }
}

proof fn lemma_flatten_in(d: JsonValue, ss: Seq<Seq<RefModel>>)
    requires
        forall|i: int| 0 <= i < ss.len() ==> all_in(d, #[trigger] ss[i]),
    ensures
        all_in(d, ss.flatten()),
    decreases ss.len(),
{
    if ss.len() > 0 {
        let init = ss.drop_last();
        assert forall|i: int| 0 <= i < init.len() implies all_in(d, #[trigger] init[i]) by {
            assert(init[i] == ss[i]);
        }
        lemma_flatten_in(d, init);
        assert(init.push(ss.last()) =~= ss);
        init.lemma_flatten_push(ss.last());
        assert(all_in(d, ss[ss.len() - 1]));
        lemma_concat_in(d, init.flatten(), ss.last());
    }
}

proof fn lemma_flat_map_in<A>(d: JsonValue, s: Seq<A>, f: spec_fn(A) -> Seq<RefModel>)
    requires
        forall|i: int| 0 <= i < s.len() ==> all_in(d, #[trigger] f(s[i])),
    ensures
        all_in(d, s.flat_map(f)),
    decreases s.len(),
{
    if s.len() > 0 {
        let init = s.drop_last();
        assert forall|i: int| 0 <= i < init.len() implies all_in(d, #[trigger] f(init[i])) by {
            assert(init[i] == s[i]);
        }
        lemma_flat_map_in(d, init, f);
        assert(init.push(s.last()) =~= s);
        init.lemma_flat_map_push(f, s.last());
        assert(all_in(d, f(s[s.len() - 1])));
        lemma_concat_in(d, init.flat_map(f), f(s.last()));
    }
}

proof fn lemma_contained_in(d: JsonValue, s: Seq<RefModel>, t: Seq<RefModel>)
    requires
        all_in(d, s),
        forall|k: int| 0 <= k < t.len() ==> #[trigger] s.contains(t[k]),
    ensures
        all_in(d, t),
{
    assert forall|k: int| 0 <= k < t.len() implies node_in(d, #[trigger] t[k]) by {
        assert(s.contains(t[k]));
        let j = choose|j: int| 0 <= j < s.len() && s[j] == t[k];
        assert(node_in(d, s[j]));
    }
}

// ---------------------------------------------------------------------------
// The moves of a selection stay inside the document

proof fn lemma_member_in(d: JsonValue, r: RefModel, k: Seq<char>)
    requires
        node_in(d, r),
    ensures
        all_in(d, member_of(r, k)),
{
    if let JsonValue::Object(m) = r.value() {
        lemma_find_key_some(m@, k);
        if let Some(i) = find_key(m@, k) {
            lemma_child_in(d, r, i);
        }
    }
}

proof fn lemma_collect_in(d: JsonValue, f: WalkKind, r: RefModel)
    requires
        node_in(d, r),
    ensures
        all_in(d, collect_at(f, r)),
{
    match f {
        WalkKind::Children => lemma_children_in(d, r),
        WalkKind::ObjectsWithKey(k) => {},
        WalkKind::MemberValue(k) => lemma_member_in(d, r, k),
    }
}

proof fn lemma_walk_tree_in(d: JsonValue, f: WalkKind, p: Seq<usize>, v: JsonValue)
    requires
        resolve(d, p) == Some(v),
    ensures
        all_in(d, walk_tree(f, p, v)),
    decreases v,
{
    lemma_collect_in(d, f, RefModel::Node(p, v));
    let kids = walk_kids(f, p, v);
    assert forall|i: int| 0 <= i < kids.len() implies all_in(d, #[trigger] kids[i]) by {
        lemma_resolve_push(d, p, v, i);
        match v {
            JsonValue::Array(a) => {
                assert(decreases_to!(v => a@[i]));
                lemma_walk_tree_in(d, f, p.push(i as usize), a@[i]);
            },
            JsonValue::Object(m) => {
                assert(decreases_to!(v => m@[i].1));
                lemma_walk_tree_in(d, f, p.push(i as usize), m@[i].1);
            },
            _ => {},
        }
    }
    lemma_flatten_in(d, kids);
    lemma_concat_in(d, collect_at(f, RefModel::Node(p, v)), kids.flatten());
}

/// A walk from nodes of the document collects nodes of the document.
pub proof fn lemma_walk_in(d: JsonValue, f: WalkKind, cur: Seq<RefModel>)
    requires
        all_in(d, cur),
    ensures
        all_in(d, walk(f, cur)),
{
    assert forall|i: int| 0 <= i < cur.len() implies all_in(d, #[trigger] walk_fn(f)(cur[i])) by {
        assert(node_in(d, cur[i]));
        if let RefModel::Node(p, v) = cur[i] {
            lemma_walk_tree_in(d, f, p, v);
        }
    }
    lemma_flat_map_in(d, cur, walk_fn(f));
}

pub proof fn lemma_next_all_in(d: JsonValue, cur: Seq<RefModel>)
    requires
        all_in(d, cur),
    ensures
        all_in(d, next_all(cur)),
{
    assert forall|i: int| 0 <= i < cur.len() implies all_in(d, #[trigger] children_fn()(cur[i])) by {
        assert(node_in(d, cur[i]));
        lemma_children_in(d, cur[i]);
    }
    lemma_flat_map_in(d, cur, children_fn());
}

pub proof fn lemma_members_in(d: JsonValue, cur: Seq<RefModel>, keys: Seq<Seq<char>>)
    requires
        all_in(d, cur),
    ensures
        all_in(d, members_of(cur, keys)),
{
    assert forall|i: int| 0 <= i < cur.len() implies all_in(d, #[trigger] members_fn(keys)(cur[i])) by {
        let r = cur[i];
        assert(node_in(d, r));
        assert forall|j: int| 0 <= j < keys.len() implies all_in(d, #[trigger] member_fn(r)(keys[j])) by {
            lemma_member_in(d, r, keys[j]);
        }
        lemma_flat_map_in(d, keys, member_fn(r));
    }
    lemma_flat_map_in(d, cur, members_fn(keys));
}

proof fn lemma_element_in(d: JsonValue, r: RefModel, n: int)
    requires
        node_in(d, r),
    ensures
        all_in(d, element_at(r, n)),
{
    if let JsonValue::Array(a) = r.value() {
        let j = crate::walk::abs_index_spec(n, a@.len() as int);
        if 0 <= j < a@.len() {
            lemma_child_in(d, r, j);
        }
    }
}

pub proof fn lemma_elements_in(d: JsonValue, cur: Seq<RefModel>, n: int)
    requires
        all_in(d, cur),
    ensures
        all_in(d, elements_at(cur, n)),
{
    assert forall|i: int| 0 <= i < cur.len() implies all_in(d, #[trigger] element_fn(n)(cur[i])) by {
        assert(node_in(d, cur[i]));
        lemma_element_in(d, cur[i], n);
    }
    lemma_flat_map_in(d, cur, element_fn(n));
}

proof fn lemma_owk_in(d: JsonValue, key: Seq<char>, p: Seq<usize>, v: JsonValue)
    requires
        resolve(d, p) == Some(v),
    ensures
        all_in(d, objects_with_key(key, p, v)),
    decreases v,
{
    if let JsonValue::Array(a) = v {
        let kids = objects_with_key_kids(key, p, v);
        assert forall|i: int| 0 <= i < kids.len() implies all_in(d, #[trigger] kids[i]) by {
            lemma_resolve_push(d, p, v, i);
            assert(decreases_to!(v => a@[i]));
            lemma_owk_in(d, key, p.push(i as usize), a@[i]);
        }
        lemma_flatten_in(d, kids);
    }
}

/// Every element of `dedup(s)` is an element of `s`.
pub proof fn lemma_dedup_subset(s: Seq<RefModel>)
    ensures
        forall|k: int| 0 <= k < dedup(s).len() ==> #[trigger] s.contains(dedup(s)[k]),
    decreases s.len(),
{
    if s.len() > 0 {
        lemma_dedup_subset(s.drop_last());
        assert forall|k: int| 0 <= k < dedup(s).len() implies #[trigger] s.contains(dedup(s)[k]) by {
            if k < dedup(s.drop_last()).len() {
                let x = dedup(s.drop_last())[k];
                assert(s.drop_last().contains(x));
                let i = choose|i: int| 0 <= i < s.drop_last().len() && s.drop_last()[i] == x;
                assert(s[i] == x);
            } else {
                assert(s[s.len() - 1] == s.last());
            }
        }
    }
}

pub proof fn lemma_objects_with_key_in(d: JsonValue, key: Seq<char>, cur: Seq<RefModel>)
    requires
        all_in(d, cur),
    ensures
        all_in(d, objects_with_key_in(key, cur)),
{
    assert forall|i: int| 0 <= i < cur.len() implies all_in(d, #[trigger] owk_fn(key)(cur[i])) by {
        assert(node_in(d, cur[i]));
        if let RefModel::Node(p, v) = cur[i] {
            lemma_owk_in(d, key, p, v);
        }
    }
    lemma_flat_map_in(d, cur, owk_fn(key));
    lemma_dedup_subset(cur.flat_map(owk_fn(key)));
    lemma_contained_in(d, cur.flat_map(owk_fn(key)), objects_with_key_in(key, cur));
}

pub proof fn lemma_slices_in(d: JsonValue, cur: Seq<RefModel>, from: Option<isize>, to: Option<isize>, step: int)
    requires
        all_in(d, cur),
    ensures
        all_in(d, slices(cur, from, to, step)),
{
    assert forall|i: int| 0 <= i < cur.len() implies all_in(d, #[trigger] slice_fn(from, to, step)(cur[i])) by {
        let r = cur[i];
        assert(node_in(d, r));
        if let JsonValue::Array(a) = r.value() {
            let len = a@.len() as int;
            let f = match from { Some(x) => crate::walk::abs_index_spec(x as int, len), None => 0 };
            let t = match to { Some(x) => crate::walk::abs_index_spec(x as int, len), None => len };
            let idx = stepped(f, t, step);
            assert forall|j: int| 0 <= j < idx.len() implies all_in(d, #[trigger] element_index(r, len)(idx[j])) by {
                let x = idx[j];
                if 0 <= x < len {
                    lemma_child_in(d, r, x);
                }
            }
            lemma_flat_map_in(d, idx, element_index(r, len));
        }
    }
    lemma_flat_map_in(d, cur, slice_fn(from, to, step));
}

pub proof fn lemma_unions_in(d: JsonValue, cur: Seq<RefModel>, ix: Seq<isize>)
    requires
        all_in(d, cur),
    ensures
        all_in(d, unions(cur, ix)),
{
    assert forall|i: int| 0 <= i < cur.len() implies all_in(d, #[trigger] union_fn(ix)(cur[i])) by {
        let r = cur[i];
        assert(node_in(d, r));
        assert forall|j: int| 0 <= j < ix.len() implies all_in(d, #[trigger] subscript_fn(r)(ix[j])) by {
            lemma_element_in(d, r, ix[j] as int);
        }
        lemma_flat_map_in(d, ix, subscript_fn(r));
    }
    lemma_flat_map_in(d, cur, union_fn(ix));
}

// ---------------------------------------------------------------------------
// Terms of filters hold nodes of the document

/// The nodes that term `t` holds, if any, are nodes of `d`.
pub open spec fn term_in(d: JsonValue, t: TermModel) -> bool {
    match t {
        TermModel::Json(_, v) => all_in(d, v),
        _ => true,
    }
}

pub open spec fn slot_in(d: JsonValue, o: Option<TermModel>) -> bool {
    match o {
        Some(t) => term_in(d, t),
        None => true,
    }
}

/// Every term on the stack `ts` holds nodes of `d` only.
pub open spec fn terms_in(d: JsonValue, ts: Seq<Option<TermModel>>) -> bool {
    forall|k: int| 0 <= k < ts.len() ==> slot_in(d, #[trigger] ts[k])
}

proof fn lemma_keep_in(d: JsonValue, s: Seq<RefModel>, p: spec_fn(RefModel) -> bool)
    requires
        all_in(d, s),
    ensures
        all_in(d, keep(s, p)),
{
    lemma_keep_subset(s, p);
    lemma_contained_in(d, s, keep(s, p));
}

proof fn lemma_unique_in(d: JsonValue, s: Seq<RefModel>, eq: spec_fn(RefModel, RefModel) -> bool)
    requires
        all_in(d, s),
    ensures
        all_in(d, unique_by(s, eq)),
{
    lemma_unique_subset(s, eq);
    lemma_contained_in(d, s, unique_by(s, eq));
}

/// A comparison of terms that hold nodes of the document gives a term that
/// holds nodes of the document.
pub proof fn lemma_compare_in(d: JsonValue, a: TermModel, b: TermModel, op: FilterOp)
    requires
        term_in(d, a),
        term_in(d, b),
    ensures
        term_in(d, compare_terms(a, b, op)),
{
    match (a, b) {
        (TermModel::Json(fk, v), TermModel::Json(_, w)) => {
            match op {
                FilterOp::Eq | FilterOp::And => {
                    lemma_unique_in(d, v, ref_eq());
                    lemma_keep_in(d, unique_by(v, ref_eq()), eq_in(w));
                },
                FilterOp::Ne => {
                    lemma_unique_in(d, v, ref_eq());
                    lemma_keep_in(d, unique_by(v, ref_eq()), ne_in(w));
                },
                FilterOp::Or => {
                    lemma_concat_in(d, v, w);
                    lemma_unique_in(d, v + w, ref_eq());
                },
                _ => {},
            }
        },
        (TermModel::Json(fk, v), _) => lemma_keep_in(d, v, literal_test(op, fk, b)),
        (_, TermModel::Json(fk, w)) => lemma_keep_in(d, w, literal_test(op.reversed(), fk, a)),
        _ => {},
    }
}

pub proof fn lemma_term_of_nodes_in(d: JsonValue, c: Seq<RefModel>)
    requires
        all_in(d, c),
    ensures
        term_in(d, term_of_nodes(c)),
{
}

// ---------------------------------------------------------------------------
// A selector on a document holds nodes of that document only

/// Selector `s` runs on document `d`, and its selection, its terms and the
/// selectors it has started hold nodes of `d` only.
pub open spec fn sound(d: JsonValue, s: SelectorModel) -> bool
    decreases s,
{
    &&& s.value == Some(d)
    &&& (s.current matches Some(c) ==> all_in(d, c))
    &&& terms_in(d, s.terms)
    &&& forall|i: int| 0 <= i < s.selectors.len() ==> sound(d, #[trigger] s.selectors[i])
}

proof fn lemma_terms_push(d: JsonValue, ts: Seq<Option<TermModel>>, o: Option<TermModel>)
    requires
        terms_in(d, ts),
        slot_in(d, o),
    ensures
        terms_in(d, ts.push(o)),
{
    assert forall|k: int| 0 <= k < ts.push(o).len() implies slot_in(d, #[trigger] ts.push(o)[k]) by {
        if k < ts.len() {
            assert(ts.push(o)[k] == ts[k]);
        }
    }
}

proof fn lemma_terms_drop(d: JsonValue, ts: Seq<Option<TermModel>>)
    requires
        terms_in(d, ts),
        ts.len() > 0,
    ensures
        terms_in(d, ts.drop_last()),
        slot_in(d, ts.last()),
{
    assert forall|k: int| 0 <= k < ts.drop_last().len() implies slot_in(d, #[trigger] ts.drop_last()[k]) by {
        assert(ts.drop_last()[k] == ts[k]);
    }
    assert(slot_in(d, ts[ts.len() - 1]));
}

proof fn lemma_selectors_replace_last(d: JsonValue, v: Seq<SelectorModel>, x: SelectorModel)
    requires
        v.len() > 0,
        forall|i: int| 0 <= i < v.len() ==> sound(d, #[trigger] v[i]),
        sound(d, x),
    ensures
        forall|i: int| 0 <= i < v.drop_last().push(x).len() ==> sound(d, #[trigger] v.drop_last().push(x)[i]),
{
    assert forall|i: int| 0 <= i < v.drop_last().push(x).len() implies sound(d, #[trigger] v.drop_last().push(x)[i]) by {
        if i < v.len() - 1 {
            assert(v.drop_last().push(x)[i] == v[i]);
        }
    }
}

proof fn lemma_sub_selector_sound(d: JsonValue)
    ensures
        sound(d, sub_selector(d)),
{
    let s = sub_selector(d);
    assert(node_in(d, root_ref(d)));
    assert(all_in(d, seq![root_ref(d)]));
    assert(terms_in(d, s.terms));
}

proof fn lemma_close_nested_sound(d: JsonValue, s: SelectorModel, t: TokenModel)
    requires
        sound(d, s),
    ensures
        close_nested(s, t) matches Ok(s1) ==> sound(d, s1),
{
    if s.selectors.len() > 0 && closes(t) {
        let sel = s.selectors.last();
        let rest = s.selectors.drop_last();
        assert(sound(d, s.selectors[s.selectors.len() - 1]));
        if let Some(c) = sel.current {
            let term = term_of_nodes(c);
            lemma_term_of_nodes_in(d, c);
            if rest.len() > 0 {
                let x = rest.last();
                assert(sound(d, s.selectors[rest.len() - 1]));
                lemma_terms_push(d, x.terms, Some(term));
                let y = with_terms(x, x.terms.push(Some(term)));
                assert(sound(d, y));
                assert forall|i: int| 0 <= i < rest.len() implies sound(d, #[trigger] rest[i]) by {
                    assert(rest[i] == s.selectors[i]);
                }
                lemma_selectors_replace_last(d, rest, y);
            } else {
                lemma_terms_push(d, s.terms, Some(term));
            }
        }
    }
}

proof fn lemma_map_current_in(d: JsonValue, c: Option<Seq<RefModel>>, g: spec_fn(Seq<RefModel>) -> Seq<RefModel>)
    requires
        c matches Some(v) ==> all_in(d, v),
        forall|v: Seq<RefModel>| all_in(d, v) ==> #[trigger] all_in(d, g(v)),
    ensures
        map_current(c, g) matches Some(v) ==> all_in(d, v),
{
    if let Some(v) = c {
        assert(all_in(d, g(v)));
    }
}

proof fn lemma_descendants_in(d: JsonValue)
    ensures
        forall|v: Seq<RefModel>| all_in(d, v) ==> #[trigger] all_in(d, descendants_fn()(v)),
{
    assert forall|v: Seq<RefModel>| all_in(d, v) implies #[trigger] all_in(d, descendants_fn()(v)) by {
        lemma_walk_in(d, WalkKind::Children, v);
    }
}

proof fn lemma_step_relative_sound(d: JsonValue, s: SelectorModel)
    requires
        sound(d, s),
    ensures
        sound(d, step_relative(s)),
{
    lemma_descendants_in(d);
    lemma_map_current_in(d, s.current, descendants_fn());
    lemma_terms_push(d, s.terms, None);
}

proof fn lemma_step_array_eof_sound(d: JsonValue, s: SelectorModel)
    requires
        sound(d, s),
    ensures
        sound(d, step_array_eof(s)),
{
    if s.terms.len() > 0 {
        lemma_terms_drop(d, s.terms);
        match s.terms.last() {
            Some(TermModel::Num(n)) => {
                let k = double_as_isize(n.f64_bits);
                assert forall|v: Seq<RefModel>| all_in(d, v) implies #[trigger] all_in(d, elements_all_fn(k)(v)) by {
                    lemma_elements_in(d, v, k);
                }
                lemma_map_current_in(d, s.current, elements_all_fn(k));
            },
            Some(TermModel::Str(key)) => {
                assert forall|v: Seq<RefModel>| all_in(d, v) implies #[trigger] all_in(d, members_all_fn(seq![key])(v)) by {
                    lemma_members_in(d, v, seq![key]);
                }
                lemma_map_current_in(d, s.current, members_all_fn(seq![key]));
            },
            Some(TermModel::Json(_, v)) => {
                assert(all_in(d, seq![RefModel::Null]));
            },
            _ => {
                assert(all_in(d, seq![RefModel::Null]));
            },
        }
    }
}

proof fn lemma_step_all_sound(d: JsonValue, s: SelectorModel)
    requires
        sound(d, s),
    ensures
        sound(d, step_all(s)),
{
    lemma_descendants_in(d);
    lemma_map_current_in(d, s.current, descendants_fn());
    assert forall|v: Seq<RefModel>| all_in(d, v) implies #[trigger] all_in(d, children_all_fn()(v)) by {
        lemma_next_all_in(d, v);
    }
    lemma_map_current_in(d, s.current, children_all_fn());
}

proof fn lemma_in_filter_sound(d: JsonValue, s: SelectorModel, fk: KeyModel, key: Seq<char>)
    requires
        sound(d, s),
    ensures
        in_filter(s, fk, key) matches Ok(s1) ==> sound(d, s1),
{
    if s.terms.len() > 0 {
        lemma_terms_drop(d, s.terms);
        let rest = s.terms.drop_last();
        let src = match s.terms.last() {
            Some(TermModel::Json(_, v)) => Some(v),
            Some(_) => None,
            None => s.current,
        };
        if let Some(v) = src {
            match fk {
                KeyModel::All => lemma_walk_in(d, WalkKind::ObjectsWithKey(key), v),
                KeyModel::String(_) => lemma_objects_with_key_in(d, key, v),
            }
            lemma_terms_push(d, rest, Some(TermModel::Json(Some(fk), filter_nodes(fk, key, v))));
        }
    }
}

proof fn lemma_step_key_sound(d: JsonValue, s: SelectorModel, k: Seq<char>)
    requires
        sound(d, s),
    ensures
        step_key(s, k) matches Ok(s1) ==> sound(d, s1),
{
    if top_is(s.tokens, Pending::Array) {
        lemma_terms_push(d, s.terms, Some(TermModel::Str(k)));
    } else if s.tokens.len() > 0 {
        let s1 = with_tokens(s, s.tokens.drop_last());
        assert forall|v: Seq<RefModel>| all_in(d, v) implies #[trigger] all_in(d, member_values_fn(k)(v)) by {
            lemma_walk_in(d, WalkKind::MemberValue(k), v);
        }
        lemma_map_current_in(d, s.current, member_values_fn(k));
        assert forall|v: Seq<RefModel>| all_in(d, v) implies #[trigger] all_in(d, members_all_fn(seq![k])(v)) by {
            lemma_members_in(d, v, seq![k]);
        }
        lemma_map_current_in(d, s.current, members_all_fn(seq![k]));
        lemma_in_filter_sound(d, s1, KeyModel::All, k);
        lemma_in_filter_sound(d, s1, KeyModel::String(k), k);
    }
}

proof fn lemma_step_keys_sound(d: JsonValue, s: SelectorModel, ks: Seq<Seq<char>>)
    requires
        sound(d, s),
    ensures
        step_keys(s, ks) matches Ok(s1) ==> sound(d, s1),
{
    assert forall|v: Seq<RefModel>| all_in(d, v) implies #[trigger] all_in(d, members_all_fn(ks)(v)) by {
        lemma_members_in(d, v, ks);
    }
    lemma_map_current_in(d, s.current, members_all_fn(ks));
}

proof fn lemma_pop_operand_in(d: JsonValue, ts: Seq<Option<TermModel>>, c: Option<Seq<RefModel>>, empty: Halt)
    requires
        terms_in(d, ts),
        c matches Some(v) ==> all_in(d, v),
    ensures
        pop_operand(ts, c, empty) matches Ok((t, rest)) ==> term_in(d, t) && terms_in(d, rest),
{
    if ts.len() > 0 {
        lemma_terms_drop(d, ts);
    }
}

proof fn lemma_step_filter_sound(d: JsonValue, s: SelectorModel, f: FilterToken)
    requires
        sound(d, s),
    ensures
        step_filter(s, f) matches Ok(s1) ==> sound(d, s1),
{
    lemma_pop_operand_in(d, s.terms, s.current, Halt::EmptyTermRight);
    if let Ok((right, t1)) = pop_operand(s.terms, s.current, Halt::EmptyTermRight) {
        lemma_pop_operand_in(d, t1, s.current, Halt::EmptyTermLeft);
        if let Ok((left, t2)) = pop_operand(t1, s.current, Halt::EmptyTermLeft) {
            lemma_compare_in(d, left, right, filter_op(f));
            lemma_terms_push(d, t2, Some(compare_terms(left, right, filter_op(f))));
        }
    }
}

proof fn lemma_own_step_sound(d: JsonValue, s: SelectorModel, t: TokenModel)
    requires
        sound(d, s),
    ensures
        own_step(s, t) matches Ok(s1) ==> sound(d, s1),
{
    let sel = selection_or_empty(s.current);
    assert(all_in(d, sel));
    match t {
        TokenModel::Absolute => {
            lemma_sub_selector_sound(d);
            if s.current is Some {
                lemma_selectors_push(d, s.selectors, sub_selector(d));
            } else {
                assert(all_in(d, seq![root_ref(d)]));
            }
        },
        TokenModel::Relative => lemma_step_relative_sound(d, s),
        TokenModel::ArrayEof => lemma_step_array_eof_sound(d, s),
        TokenModel::All => lemma_step_all_sound(d, s),
        TokenModel::Bool(b) => lemma_terms_push(d, s.terms, Some(TermModel::Bool(b))),
        TokenModel::Key(k) => lemma_step_key_sound(d, s, k),
        TokenModel::Keys(ks) => lemma_step_keys_sound(d, s, ks),
        TokenModel::Number(bits) => lemma_terms_push(d, s.terms,
            Some(TermModel::Num(JsonNumber { repr: NumberRepr::Float(bits), f64_bits: bits }))),
        TokenModel::Filter(f) => lemma_step_filter_sound(d, s, f),
        TokenModel::Range(a, b, c) => {
            let step = match c { Some(x) => x as int, None => 1 };
            lemma_slices_in(d, sel, a, b, step);
        },
        TokenModel::Union(ix) => lemma_unions_in(d, sel, ix),
        _ => {},
    }
}

proof fn lemma_selectors_push(d: JsonValue, v: Seq<SelectorModel>, x: SelectorModel)
    requires
        forall|i: int| 0 <= i < v.len() ==> sound(d, #[trigger] v[i]),
        sound(d, x),
    ensures
        forall|i: int| 0 <= i < v.push(x).len() ==> sound(d, #[trigger] v.push(x)[i]),
{
    assert forall|i: int| 0 <= i < v.push(x).len() implies sound(d, #[trigger] v.push(x)[i]) by {
        if i < v.len() {
            assert(v.push(x)[i] == v[i]);
        }
    }
}

proof fn lemma_step_sound(d: JsonValue, s: SelectorModel, t: TokenModel)
    requires
        sound(d, s),
    ensures
        step(s, t) matches Ok(s2) ==> sound(d, s2),
    decreases height(s),
{
    lemma_close_nested_sound(d, s, t);
    if let Ok(s1) = close_nested(s, t) {
        if s1.selectors.len() > 0 {
            lemma_close_height(s, t);
            let last = s1.selectors.last();
            assert(sound(d, s1.selectors[s1.selectors.len() - 1]));
            lemma_step_sound(d, last, t);
            if let Ok(c) = step(last, t) {
                lemma_selectors_replace_last(d, s1.selectors, c);
            }
        } else {
            lemma_own_step_sound(d, s1, t);
        }
    }
}

/// Running the tokens of a path keeps a selector on a document holding
/// nodes of that document only: its selection, the terms of its filters,
/// and the selectors it starts for `$` inside filters.
pub proof fn law_run_stays_in_document(d: JsonValue, s: SelectorModel, ts: Seq<TokenModel>)
    requires
        sound(d, s),
    ensures
        run(s, ts) matches Ok(s2) ==> sound(d, s2),
    decreases ts.len(),
{
    if ts.len() > 0 {
        law_run_stays_in_document(d, s, ts.drop_last());
        if let Ok(s1) = run(s, ts.drop_last()) {
            lemma_step_sound(d, s1, ts.last());
        }
    }
}

/// What `select` gives on a document are nodes of that document: each is
/// the value found at its position (or the `null` of an empty subscript).
pub proof fn law_selection_in_document(d: JsonValue, s: SelectorModel)
    requires
        sound(d, s),
    ensures
        select_outcome(s) matches Ok(c) ==> all_in(d, c),
{
    let a = SelectorModel { node_ref: None, ..s };
    let b = SelectorModel { node: None, ..s };
    assert(sound(d, a));
    assert(sound(d, b));
    match s.node_ref {
        Some(ts) => law_run_stays_in_document(d, a, ts),
        None => if let Some(ts) = s.node {
            law_run_stays_in_document(d, b, ts);
        },
    }
}

/// A selector that has just been given a document, with no selection,
/// terms or started selectors yet, is on that document.
pub proof fn lemma_fresh_sound(d: JsonValue, s: SelectorModel)
    requires
        s.value == Some(d),
        s.current is None,
        s.terms.len() == 0,
        s.selectors.len() == 0,
    ensures
        sound(d, s),
{
}

// ---------------------------------------------------------------------------
// Filters

/// A comparison in a filter may be written either way round: `a op b`
/// gives what `b op' a` gives, `op'` being `op` mirrored (`<` for `>`,
/// `<=` for `>=`, the others unchanged), unless both sides are node lists
/// (then the nodes kept are those of the left side).
pub proof fn law_comparison_mirrors(a: TermModel, b: TermModel, op: FilterOp)
    requires
        !(a is Json && b is Json),
    ensures
        compare_terms(a, b, op) == compare_terms(b, a, op.reversed()),
{
    assert(op.reversed().reversed() == op);
}

/// The nodes that a key inside a filter reaches through `.` are each
/// reached once.
pub proof fn law_filter_nodes_distinct(key: Seq<char>, cur: Seq<RefModel>)
    ensures
        forall|i: int, j: int| 0 <= i < j < objects_with_key_in(key, cur).len()
            ==> !(#[trigger] objects_with_key_in(key, cur)[i]).same_node(#[trigger] objects_with_key_in(key, cur)[j]),
{
    lemma_dedup_distinct(cur.flat_map(owk_fn(key)));
}

#[verifier::spinoff_prover]
proof fn lemma_dedup_distinct(s: Seq<RefModel>)
    ensures
        forall|i: int, j: int| 0 <= i < j < dedup(s).len() ==> !(#[trigger] dedup(s)[i]).same_node(#[trigger] dedup(s)[j]),
    decreases s.len(),
{
    if s.len() > 0 {
        let init = s.drop_last();
        lemma_dedup_distinct(init);
        lemma_dedup_subset(init);
        if exists|j: int| 0 <= j < s.len() - 1 && (#[trigger] s[j]).same_node(s.last()) {
            assert(dedup(s) == dedup(init));
        } else {
            let u = dedup(init);
            assert forall|i: int, j: int| 0 <= i < j < u.push(s.last()).len()
                implies !(#[trigger] u.push(s.last())[i]).same_node(#[trigger] u.push(s.last())[j]) by {
                if j == u.len() {
                    assert(u.push(s.last())[i] == u[i]);
                    assert(init.contains(u[i]));
                    let k = choose|k: int| 0 <= k < init.len() && init[k] == u[i];
                    assert(s[k] == u[i]);
                } else {
                    assert(u.push(s.last())[i] == u[i]);
                    assert(u.push(s.last())[j] == u[j]);
                }
            }
            assert(dedup(s) == u.push(s.last()));
        }
    }
}

/// `||` of two node lists gives each value once: no two of the nodes it
/// gives are equal JSON values.
pub proof fn law_or_gives_each_value_once(a: Seq<RefModel>, b: Seq<RefModel>)
    ensures
        forall|i: int, j: int| 0 <= i < j < nodes_vs_nodes(FilterOp::Or, a, b).len()
            ==> !json_eq((#[trigger] nodes_vs_nodes(FilterOp::Or, a, b)[i]).value(),
                (#[trigger] nodes_vs_nodes(FilterOp::Or, a, b)[j]).value()),
{
    lemma_unique_distinct(a + b, ref_eq());
}

// ---------------------------------------------------------------------------
// Running a path

/// Running the tokens of two paths one after the other is running them
/// together: the selector can be fed a path token by token.
pub proof fn law_run_concat(s: SelectorModel, a: Seq<TokenModel>, b: Seq<TokenModel>)
    ensures
        run(s, a + b) == (match run(s, a) {
            Ok(s1) => run(s1, b),
            Err(h) => Err(h),
        }),
    decreases b.len(),
{
    if b.len() == 0 {
        assert(a + b =~= a);
    } else {
        assert((a + b).drop_last() =~= a + b.drop_last());
        assert((a + b).last() == b.last());
        law_run_concat(s, a, b.drop_last());
    }
}

/// The fields of a selector that its steps leave alone: the document and
/// the paths it was given.
pub open spec fn same_setup(a: SelectorModel, b: SelectorModel) -> bool {
    a.value == b.value && a.node == b.node && a.node_ref == b.node_ref
}

proof fn lemma_own_step_setup(s: SelectorModel, t: TokenModel)
    ensures
        own_step(s, t) matches Ok(s2) ==> same_setup(s, s2),
{
    match t {
        TokenModel::Key(k) => {
            if !top_is(s.tokens, Pending::Array) && s.tokens.len() > 0 && s.terms.len() > 0 {
                let s1 = with_tokens(s, s.tokens.drop_last());
                assert(in_filter(s1, KeyModel::All, k) matches Ok(s2) ==> same_setup(s1, s2));
                assert(in_filter(s1, KeyModel::String(k), k) matches Ok(s2) ==> same_setup(s1, s2));
            }
        },
        TokenModel::Filter(f) => {
            if let Ok((right, t1)) = pop_operand(s.terms, s.current, Halt::EmptyTermRight) {
                if let Ok((left, t2)) = pop_operand(t1, s.current, Halt::EmptyTermLeft) {}
            }
        },
        _ => {},
    }
}

proof fn lemma_step_setup(s: SelectorModel, t: TokenModel)
    ensures
        step(s, t) matches Ok(s2) ==> same_setup(s, s2),
    decreases height(s),
{
    if let Ok(s1) = close_nested(s, t) {
        assert(same_setup(s, s1));
        if s1.selectors.len() > 0 {
            lemma_close_height(s, t);
            lemma_step_setup(s1.selectors.last(), t);
        } else {
            lemma_own_step_setup(s1, t);
        }
    }
}

proof fn lemma_run_setup(s: SelectorModel, ts: Seq<TokenModel>)
    ensures
        run(s, ts) matches Ok(s2) ==> same_setup(s, s2),
    decreases ts.len(),
{
    if ts.len() > 0 {
        lemma_run_setup(s, ts.drop_last());
        if let Ok(s1) = run(s, ts.drop_last()) {
            lemma_step_setup(s1, ts.last());
        }
    }
}

/// Selecting keeps the document and a path given with `str_path` for later
/// selections, and drops a path given with `compiled_path`: that one serves
/// one selection only.
pub proof fn law_select_keeps_str_path(s: SelectorModel)
    ensures
        selected(s) matches Ok(m) ==> m.value == s.value && m.node == s.node && m.node_ref is None,
        selected(s) == Err::<SelectorModel, ErrorModel>(ErrorModel::EmptyPath) <==> (s.node_ref is None && s.node is None),
{
    lemma_run_setup(SelectorModel { node_ref: None, ..s }, s.node_ref.unwrap());
    lemma_run_setup(SelectorModel { node: None, ..s }, s.node.unwrap());
}

/// After `reset_value`, a selector whose token, term and selector stacks
/// are empty selects what a new selector given the same document and path
/// selects: nothing of the earlier selection is left.
pub proof fn law_reset_value_selects_afresh(s: SelectorModel)
    requires
        s.tokens.len() == 0,
        s.terms.len() == 0,
        s.selectors.len() == 0,
    ensures
        select_outcome(with_current(s, None)) == select_outcome(SelectorModel {
            value: s.value,
            node: s.node,
            node_ref: s.node_ref,
            tokens: seq![],
            terms: seq![],
            current: None,
            selectors: seq![],
        }),
{
    assert(s.tokens =~= seq![]);
    assert(s.terms =~= seq![]);
    assert(s.selectors =~= seq![]);
    assert(with_current(s, None) == SelectorModel {
        value: s.value,
        node: s.node,
        node_ref: s.node_ref,
        tokens: seq![],
        terms: seq![],
        current: None,
        selectors: seq![],
    });
}

/// `x` is among the nodes `r`, or some node of `r` has an equal value.
pub open spec fn represented(r: Seq<RefModel>, x: RefModel) -> bool {
    r.contains(x) || exists|k: int| 0 <= k < r.len() && json_eq((#[trigger] r[k]).value(), x.value())
}

proof fn lemma_ref_eq_transitive()
    ensures
        forall|x: RefModel, y: RefModel, z: RefModel| #[trigger] ref_eq()(x, y) && #[trigger] ref_eq()(y, z) ==> ref_eq()(x, z),
{
    assert forall|x: RefModel, y: RefModel, z: RefModel| #[trigger] ref_eq()(x, y) && #[trigger] ref_eq()(y, z) implies ref_eq()(x, z) by {
        lemma_json_eq_transitive(x.value(), y.value(), z.value());
    }
}

proof fn lemma_kept_in(a: Seq<RefModel>, p: spec_fn(RefModel) -> bool)
    ensures
        forall|k: int| 0 <= k < keep(unique_by(a, ref_eq()), p).len()
            ==> a.contains(#[trigger] keep(unique_by(a, ref_eq()), p)[k]) && p(keep(unique_by(a, ref_eq()), p)[k]),
{
    let u = unique_by(a, ref_eq());
    lemma_unique_subset(a, ref_eq());
    lemma_keep_subset(u, p);
    lemma_keep_passes(u, p);
    assert forall|k: int| 0 <= k < keep(u, p).len() implies a.contains(#[trigger] keep(u, p)[k]) && p(keep(u, p)[k]) by {
        assert(u.contains(keep(u, p)[k]));
        let j = choose|j: int| 0 <= j < u.len() && u[j] == keep(u, p)[k];
        assert(a.contains(u[j]));
    }
}

/// Node lists compared with `==` or `&&`, read as sets of values: the nodes
/// given are nodes of the left list that equal some node of the right list,
/// and every such node of the left list is given, or a node of equal value.
/// With `!=` the same for nodes that differ from some node of the right
/// list; `||` gives nodes of either list, and every node of either list or
/// one of equal value; the orderings give nothing. An empty outcome is
/// `false`.
pub proof fn law_node_lists_as_sets(fa: Option<KeyModel>, a: Seq<RefModel>, fb: Option<KeyModel>, b: Seq<RefModel>, op: FilterOp)
    ensures
        compare_terms(TermModel::Json(fa, a), TermModel::Json(fb, b), op) == (if nodes_vs_nodes(op, a, b).len() == 0 {
            TermModel::Bool(false)
        } else {
            TermModel::Json(None, nodes_vs_nodes(op, a, b))
        }),
        (op == FilterOp::Eq || op == FilterOp::And) ==> {
            &&& forall|k: int| 0 <= k < nodes_vs_nodes(op, a, b).len()
                ==> a.contains(#[trigger] nodes_vs_nodes(op, a, b)[k]) && eq_in(b)(nodes_vs_nodes(op, a, b)[k])
            &&& forall|i: int| 0 <= i < a.len() && #[trigger] eq_in(b)(a[i]) ==> represented(nodes_vs_nodes(op, a, b), a[i])
        },
        op == FilterOp::Ne ==> {
            &&& forall|k: int| 0 <= k < nodes_vs_nodes(op, a, b).len()
                ==> a.contains(#[trigger] nodes_vs_nodes(op, a, b)[k]) && ne_in(b)(nodes_vs_nodes(op, a, b)[k])
            &&& forall|i: int| 0 <= i < a.len() && #[trigger] ne_in(b)(a[i]) ==> represented(nodes_vs_nodes(op, a, b), a[i])
        },
        op == FilterOp::Or ==> {
            &&& forall|k: int| 0 <= k < nodes_vs_nodes(op, a, b).len() ==> (a + b).contains(#[trigger] nodes_vs_nodes(op, a, b)[k])
            &&& forall|i: int| 0 <= i < (a + b).len() ==> represented(nodes_vs_nodes(op, a, b), #[trigger] (a + b)[i])
        },
        (op == FilterOp::Gt || op == FilterOp::Ge || op == FilterOp::Lt || op == FilterOp::Le) ==> nodes_vs_nodes(op, a, b).len() == 0,
{
    lemma_ref_eq_transitive();
    let u = unique_by(a, ref_eq());
    let r = nodes_vs_nodes(op, a, b);
    if op == FilterOp::Eq || op == FilterOp::And || op == FilterOp::Ne {
        let p = if op == FilterOp::Ne { ne_in(b) } else { eq_in(b) };
        assert(r == keep(u, p));
        lemma_kept_in(a, p);
        assert forall|i: int| 0 <= i < a.len() && #[trigger] p(a[i]) implies represented(r, a[i]) by {
            lemma_unique_covers(a, ref_eq(), i);
            if u.contains(a[i]) {
                lemma_keep_contains(u, p, a[i]);
            } else {
                let k = choose|k: int| 0 <= k < u.len() && ref_eq()(#[trigger] u[k], a[i]);
                let x = a[i];
                let c = u[k];
                assert(json_eq(c.value(), x.value()));
                if op == FilterOp::Ne {
                    let j = choose|j: int| 0 <= j < b.len() && !json_eq(x.value(), (#[trigger] b[j]).value());
                    if json_eq(c.value(), b[j].value()) {
                        lemma_json_eq_symmetric(c.value(), x.value());
                        lemma_json_eq_transitive(x.value(), c.value(), b[j].value());
                    }
                    assert(p(c));
                } else {
                    let j = choose|j: int| 0 <= j < b.len() && json_eq(x.value(), (#[trigger] b[j]).value());
                    lemma_json_eq_transitive(c.value(), x.value(), b[j].value());
                    assert(p(c));
                }
                assert(u.contains(c));
                lemma_keep_contains(u, p, c);
                let k2 = choose|k2: int| 0 <= k2 < r.len() && r[k2] == c;
                assert(json_eq(r[k2].value(), x.value()));
            }
        }
    } else if op == FilterOp::Or {
        lemma_unique_subset(a + b, ref_eq());
        assert forall|i: int| 0 <= i < (a + b).len() implies represented(r, #[trigger] (a + b)[i]) by {
            lemma_unique_covers(a + b, ref_eq(), i);
            if !r.contains((a + b)[i]) {
                let k = choose|k: int| 0 <= k < r.len() && ref_eq()(#[trigger] r[k], (a + b)[i]);
                assert(json_eq(r[k].value(), (a + b)[i].value()));
            }
        }
    }
}

// ---------------------------------------------------------------------------
// Without a document

/// A token of a path made of keys, indexes and wildcards only.
pub open spec fn key_only(t: TokenModel) -> bool {
    t is Absolute || t is In || t is Leaves || t is All || t is Key || t is Keys || t is Array || t is ArrayEof
        || t is Number || t is Eof
}

/// The selector has no document, no selection, no started selectors, and
/// only literal keys and numbers on its term stack.
pub open spec fn bare(s: SelectorModel) -> bool {
    &&& s.value is None
    &&& s.current is None
    &&& s.selectors.len() == 0
    &&& forall|k: int| 0 <= k < s.terms.len() ==> (#[trigger] s.terms[k] matches Some(TermModel::Str(_))
        || s.terms[k] matches Some(TermModel::Num(_)))
}

proof fn lemma_bare_push(s: SelectorModel, t: TermModel)
    requires
        bare(s),
        t is Str || t is Num,
    ensures
        bare(with_terms(s, s.terms.push(Some(t)))),
{
    let ts = s.terms.push(Some(t));
    assert forall|k: int| 0 <= k < ts.len() implies (#[trigger] ts[k] matches Some(TermModel::Str(_))
        || ts[k] matches Some(TermModel::Num(_))) by {
        if k < s.terms.len() {
            assert(ts[k] == s.terms[k]);
        }
    }
}

proof fn lemma_bare_drop(s: SelectorModel)
    requires
        bare(s),
        s.terms.len() > 0,
    ensures
        bare(with_terms(s, s.terms.drop_last())),
        s.terms.last() matches Some(TermModel::Str(_)) || s.terms.last() matches Some(TermModel::Num(_)),
{
    let ts = s.terms.drop_last();
    assert forall|k: int| 0 <= k < ts.len() implies (#[trigger] ts[k] matches Some(TermModel::Str(_))
        || ts[k] matches Some(TermModel::Num(_))) by {
        assert(ts[k] == s.terms[k]);
    }
    assert(s.terms[s.terms.len() - 1] == s.terms.last());
}

proof fn lemma_bare_step(s: SelectorModel, t: TokenModel)
    requires
        bare(s),
        key_only(t),
    ensures
        step(s, t) matches Ok(s2) ==> bare(s2),
{
    assert(close_nested(s, t) == Ok::<SelectorModel, Halt>(s));
    match t {
        TokenModel::Key(k) => {
            if top_is(s.tokens, Pending::Array) {
                lemma_bare_push(s, TermModel::Str(k));
            } else if s.tokens.len() > 0 && s.terms.len() > 0 {
                let s1 = with_tokens(s, s.tokens.drop_last());
                lemma_bare_drop(s);
                assert(s1.terms == s.terms);
            }
        },
        TokenModel::ArrayEof => {
            if s.terms.len() > 0 {
                lemma_bare_drop(s);
            }
        },
        TokenModel::Number(bits) => {
            lemma_bare_push(s, TermModel::Num(JsonNumber { repr: NumberRepr::Float(bits), f64_bits: bits }));
        },
        _ => {},
    }
}

proof fn lemma_bare_run(s: SelectorModel, ts: Seq<TokenModel>)
    requires
        bare(s),
        forall|i: int| 0 <= i < ts.len() ==> key_only(#[trigger] ts[i]),
    ensures
        run(s, ts) matches Ok(m) ==> bare(m),
    decreases ts.len(),
{
    if ts.len() > 0 {
        lemma_bare_run(s, ts.drop_last());
        if let Ok(s1) = run(s, ts.drop_last()) {
            assert(key_only(ts[ts.len() - 1]));
            lemma_bare_step(s1, ts.last());
        }
    }
}

/// A path made of keys, indexes and wildcards selects nothing without a
/// document: selecting gives `EmptyPath` when no path was given, and else
/// `EmptyValue` (or halts).
pub proof fn law_no_document_no_selection(s: SelectorModel)
    requires
        bare(s),
        s.node_ref matches Some(ts) ==> forall|i: int| 0 <= i < ts.len() ==> key_only(#[trigger] ts[i]),
        s.node matches Some(ts) ==> forall|i: int| 0 <= i < ts.len() ==> key_only(#[trigger] ts[i]),
    ensures
        select_outcome(s) is Err,
        select_outcome(s) == Err::<Seq<RefModel>, ErrorModel>(ErrorModel::EmptyPath) <==> (s.node_ref is None && s.node is None),
        select_outcome(s) matches Err(e) ==> (e is EmptyPath || e is EmptyValue || e is Halted),
{
    law_select_keeps_str_path(s);
    match s.node_ref {
        Some(ts) => lemma_bare_run(SelectorModel { node_ref: None, ..s }, ts),
        None => if let Some(ts) = s.node {
            lemma_bare_run(SelectorModel { node: None, ..s }, ts);
        },
    }
}

// ---------------------------------------------------------------------------
// Selecting again

/// A token that does not close a selector started for `$` and does not
/// start one.
pub open spec fn plain_token(t: TokenModel) -> bool {
    !(t is Absolute || t is Relative || t is Filter)
}

proof fn lemma_own_step_plain(s: SelectorModel, t: TokenModel)
    requires
        plain_token(t),
    ensures
        own_step(s, t) matches Ok(s2) ==> s2.selectors == s.selectors && (s.current is Some ==> s2.current is Some),
{
    match t {
        TokenModel::Key(k) => {
            if !top_is(s.tokens, Pending::Array) && s.tokens.len() > 0 && s.terms.len() > 0 {
                let s1 = with_tokens(s, s.tokens.drop_last());
                assert(in_filter(s1, KeyModel::All, k) matches Ok(s2) ==> s2.selectors == s1.selectors && s2.current == s1.current);
                assert(in_filter(s1, KeyModel::String(k), k) matches Ok(s2) ==> s2.selectors == s1.selectors && s2.current == s1.current);
            }
        },
        _ => {},
    }
}

proof fn lemma_run_take(s: SelectorModel, ts: Seq<TokenModel>, i: int)
    requires
        0 <= i < ts.len(),
    ensures
        run(s, ts.take(i + 1)) == (match run(s, ts.take(i)) {
            Ok(s1) => step(s1, ts[i]),
            Err(h) => Err(h),
        }),
{
    assert(ts.take(i + 1).drop_last() =~= ts.take(i));
    assert(ts.take(i + 1).last() == ts[i]);
}

proof fn lemma_first_run(a: SelectorModel, ts: Seq<TokenModel>, i: int)
    requires
        1 <= i <= ts.len(),
        run(a, ts.take(1)) matches Ok(f) && f.selectors.len() == 0 && f.current is Some,
        forall|j: int| 1 <= j < ts.len() ==> plain_token(#[trigger] ts[j]),
    ensures
        run(a, ts.take(i)) matches Ok(f) ==> f.selectors.len() == 0 && f.current is Some,
    decreases i,
{
    if i > 1 {
        lemma_first_run(a, ts, i - 1);
        lemma_run_take(a, ts, i - 1);
        if let Ok(f) = run(a, ts.take(i - 1)) {
            assert(plain_token(ts[i - 1]));
            assert(close_nested(f, ts[i - 1]) == Ok::<SelectorModel, Halt>(f));
            lemma_own_step_plain(f, ts[i - 1]);
        }
    }
}

proof fn lemma_second_run(a: SelectorModel, b: SelectorModel, ts: Seq<TokenModel>, i: int)
    requires
        1 <= i <= ts.len(),
        run(a, ts.take(1)) matches Ok(f) && run(b, ts.take(1)) == Ok::<SelectorModel, Halt>(with_selectors(b, seq![f])),
        forall|j: int| 1 <= j < ts.len() ==> plain_token(#[trigger] ts[j]),
    ensures
        run(a, ts.take(i)) matches Ok(f) ==> run(b, ts.take(i)) == Ok::<SelectorModel, Halt>(with_selectors(b, seq![f])),
    decreases i,
{
    if i > 1 {
        lemma_second_run(a, b, ts, i - 1);
        lemma_run_take(a, ts, i - 1);
        lemma_run_take(b, ts, i - 1);
        if let Ok(f) = run(a, ts.take(i - 1)) {
            let g = with_selectors(b, seq![f]);
            assert(plain_token(ts[i - 1]));
            assert(close_nested(g, ts[i - 1]) == Ok::<SelectorModel, Halt>(g));
            assert(g.selectors.last() == f);
            assert(g.selectors.drop_last() =~= seq![]);
            if let Ok(f2) = step(f, ts[i - 1]) {
                assert(seq![].push(f2) =~= seq![f2]);
                assert(with_selectors(g, seq![f2]) == with_selectors(b, seq![f2]));
            }
        }
    }
}

/// Selecting a second time with a path that starts with `$` and has no
/// filter gives the first selection again: the second run happens in a
/// selector started for `$`, and the selection made by the first stays.
pub proof fn law_select_again(s: SelectorModel, ts: Seq<TokenModel>)
    requires
        s.value is Some,
        s.node_ref is None,
        s.node == Some(ts),
        s.tokens.len() == 0,
        s.terms.len() == 0,
        s.current is None,
        s.selectors.len() == 0,
        ts.len() > 0,
        ts[0] is Absolute,
        forall|i: int| 1 <= i < ts.len() ==> plain_token(#[trigger] ts[i]),
    ensures
        selected(s) matches Ok(m1) ==> m1.current is Some && select_outcome(m1) == select_outcome(s),
{
    let v = s.value.unwrap();
    let a = SelectorModel { node: None, ..s };
    law_select_keeps_str_path(s);
    assert(ts.take(ts.len() as int) =~= ts);
    assert(ts.take(0) =~= Seq::<TokenModel>::empty());
    lemma_run_take(a, ts, 0);
    assert(close_nested(a, ts[0]) == Ok::<SelectorModel, Halt>(a));
    assert(a.selectors =~= seq![]);
    assert(a.tokens =~= seq![]);
    assert(a.terms =~= seq![]);
    assert(run(a, ts.take(1)) == Ok::<SelectorModel, Halt>(sub_selector(v)));
    lemma_first_run(a, ts, ts.len() as int);
    if let Ok(m) = run(a, ts) {
        let m1 = SelectorModel { node: Some(ts), ..m };
        let b = SelectorModel { node: None, ..m1 };
        assert(m.selectors.len() == 0 && m.current is Some);
        assert(b.selectors =~= seq![]);
        lemma_run_take(b, ts, 0);
        assert(close_nested(b, ts[0]) == Ok::<SelectorModel, Halt>(b));
        assert(run(b, ts.take(1)) == Ok::<SelectorModel, Halt>(with_selectors(b, seq![sub_selector(v)])));
        lemma_second_run(a, b, ts, ts.len() as int);
        assert(run(b, ts) == Ok::<SelectorModel, Halt>(with_selectors(b, seq![m])));
        assert(selected(m1) == Ok::<SelectorModel, ErrorModel>(SelectorModel { node: Some(ts), ..with_selectors(b, seq![m]) }));
    }
}

/// The mutating selector without a document, with a path made of keys,
/// indexes and wildcards, selects nothing: `EmptyValue` (or a halt), so
/// `replace_with` and `delete` leave it as it was.
pub proof fn law_mut_no_document(m: SelectorMutModel, ts: Seq<TokenModel>)
    requires
        m.value is None,
        m.path == Some(ts),
        forall|i: int| 0 <= i < ts.len() ==> key_only(#[trigger] ts[i]),
    ensures
        mut_select_outcome(m) matches Err(e) && (e is EmptyValue || e is Halted),
{
    let p = plain_selector(m, ts);
    assert(p.terms =~= seq![]);
    law_no_document_no_selection(p);
}

// ---------------------------------------------------------------------------
// Comparing literals

/// Boolean comparisons: `==` is equality and `!=` its negation; `<` and `>`
/// mirror each other, with `false < true`; exactly one of `<`, `==`, `>`
/// holds; `<=` and `>=` are `<` or `==` and `>` or `==`; `&&` and `||` are
/// the logical ones.
pub proof fn law_bool_comparisons(x: bool, y: bool)
    ensures
        bool_test(FilterOp::Eq, x, y) <==> x == y,
        bool_test(FilterOp::Ne, x, y) == !bool_test(FilterOp::Eq, x, y),
        bool_test(FilterOp::Gt, x, y) == bool_test(FilterOp::Lt, y, x),
        bool_test(FilterOp::Lt, false, true),
        !bool_test(FilterOp::Lt, x, x),
        bool_test(FilterOp::Lt, x, y) || bool_test(FilterOp::Eq, x, y) || bool_test(FilterOp::Gt, x, y),
        !(bool_test(FilterOp::Lt, x, y) && bool_test(FilterOp::Gt, x, y)),
        bool_test(FilterOp::Le, x, y) == (bool_test(FilterOp::Lt, x, y) || bool_test(FilterOp::Eq, x, y)),
        bool_test(FilterOp::Ge, x, y) == (bool_test(FilterOp::Gt, x, y) || bool_test(FilterOp::Eq, x, y)),
        bool_test(FilterOp::And, x, y) == (x && y),
        bool_test(FilterOp::Or, x, y) == (x || y),
{
}

/// Comparisons of doubles, given by their bits, as IEEE-754 makes them:
/// `!=` is the negation of `==`; with NaN only `!=` holds; otherwise `==`
/// holds exactly for the same double or for the two zeros, `>` mirrors `<`,
/// exactly one of `<`, `==`, `>` holds, `<=` and `>=` are `<` or `==` and
/// `>` or `==`; positive doubles order as their bits, negative ones the
/// other way round, and a negative double is below a positive one.
pub proof fn law_double_comparisons(x: u64, y: u64)
    ensures
        double_test(FilterOp::Ne, x, y) == !double_test(FilterOp::Eq, x, y),
        double_test(FilterOp::Gt, x, y) == double_test(FilterOp::Lt, y, x),
        double_test(FilterOp::Ge, x, y) == double_test(FilterOp::Le, y, x),
        is_nan_bits(x) || is_nan_bits(y) ==> !double_test(FilterOp::Eq, x, y) && !double_test(FilterOp::Lt, x, y)
            && !double_test(FilterOp::Le, x, y) && !double_test(FilterOp::Gt, x, y) && !double_test(FilterOp::Ge, x, y),
        !is_nan_bits(x) && !is_nan_bits(y) ==> {
            &&& double_test(FilterOp::Eq, x, y) <==> (x == y || (x as int % sign_bit() == 0 && y as int % sign_bit() == 0))
            &&& double_test(FilterOp::Lt, x, y) || double_test(FilterOp::Eq, x, y) || double_test(FilterOp::Gt, x, y)
            &&& !(double_test(FilterOp::Lt, x, y) && double_test(FilterOp::Gt, x, y))
            &&& !(double_test(FilterOp::Lt, x, y) && double_test(FilterOp::Eq, x, y))
            &&& double_test(FilterOp::Le, x, y) == (double_test(FilterOp::Lt, x, y) || double_test(FilterOp::Eq, x, y))
            &&& double_test(FilterOp::Ge, x, y) == (double_test(FilterOp::Gt, x, y) || double_test(FilterOp::Eq, x, y))
            &&& (x < sign_bit() && y < sign_bit()) ==> (double_test(FilterOp::Lt, x, y) <==> x < y)
            &&& (x > sign_bit() && y > sign_bit()) ==> (double_test(FilterOp::Lt, x, y) <==> y < x)
            &&& (x > sign_bit() && 0 < y < sign_bit()) ==> double_test(FilterOp::Lt, x, y)
        },
        double_test(FilterOp::And, x, y) == (double_test(FilterOp::Gt, x, 0) && double_test(FilterOp::Gt, y, 0)),
        double_test(FilterOp::Or, x, y) == (double_test(FilterOp::Gt, x, 0) || double_test(FilterOp::Gt, y, 0)),
{
}

/// String comparisons, in the order of `str`: `!=` is the negation of `==`
/// (equality of the characters), `>` mirrors `<`, exactly one of `<`, `==`,
/// `>` holds, `<=` and `>=` are `<` or `==` and `>` or `==`; a proper prefix
/// comes first; `&&` and `||` test that the strings are non-empty.
pub proof fn law_string_comparisons(x: Seq<char>, y: Seq<char>)
    ensures
        string_test(FilterOp::Eq, x, y) <==> x == y,
        string_test(FilterOp::Ne, x, y) == !string_test(FilterOp::Eq, x, y),
        string_test(FilterOp::Gt, x, y) == string_test(FilterOp::Lt, y, x),
        string_test(FilterOp::Lt, x, y) || string_test(FilterOp::Eq, x, y) || string_test(FilterOp::Gt, x, y),
        !(string_test(FilterOp::Lt, x, y) && string_test(FilterOp::Gt, x, y)),
        !(string_test(FilterOp::Lt, x, y) && string_test(FilterOp::Eq, x, y)),
        string_test(FilterOp::Le, x, y) == (string_test(FilterOp::Lt, x, y) || string_test(FilterOp::Eq, x, y)),
        string_test(FilterOp::Ge, x, y) == (string_test(FilterOp::Gt, x, y) || string_test(FilterOp::Eq, x, y)),
        x.len() < y.len() && y.take(x.len() as int) == x ==> string_test(FilterOp::Lt, x, y),
        forall|i: int| 0 <= i < x.len() && i < y.len() && x.take(i) == y.take(i) && #[trigger] x[i] != y[i]
            ==> (string_test(FilterOp::Lt, x, y) <==> (x[i] as u32) < (y[i] as u32)),
        string_test(FilterOp::And, x, y) == (x.len() > 0 && y.len() > 0),
        string_test(FilterOp::Or, x, y) == (x.len() > 0 || y.len() > 0),
{
    lemma_str_order(x, y);
    assert forall|i: int| 0 <= i < x.len() && i < y.len() && x.take(i) == y.take(i) && #[trigger] x[i] != y[i]
        implies (str_lt(x, y) <==> (x[i] as u32) < (y[i] as u32)) by {
        lemma_str_first_difference(x, y, i);
    }
}

/// Strings are ordered by their first differing character.
proof fn lemma_str_first_difference(x: Seq<char>, y: Seq<char>, i: int)
    requires
        0 <= i < x.len(),
        i < y.len(),
        x.take(i) == y.take(i),
        x[i] != y[i],
    ensures
        str_lt(x, y) <==> (x[i] as u32) < (y[i] as u32),
    decreases i,
{
    if i > 0 {
        assert(x[0] == x.take(i)[0]);
        assert(y[0] == y.take(i)[0]);
        assert(x.drop_first().take(i - 1) =~= x.take(i).drop_first());
        assert(y.drop_first().take(i - 1) =~= y.take(i).drop_first());
        lemma_str_first_difference(x.drop_first(), y.drop_first(), i - 1);
    }
}

/// `str_lt` is a strict total order in which a proper prefix comes first.
proof fn lemma_str_order(x: Seq<char>, y: Seq<char>)
    ensures
        str_lt(x, y) || x == y || str_lt(y, x),
        !(str_lt(x, y) && str_lt(y, x)),
        !(str_lt(x, y) && x == y),
        x.len() < y.len() && y.take(x.len() as int) == x ==> str_lt(x, y),
    decreases x.len(),
{
    if x.len() > 0 && y.len() > 0 && x[0] == y[0] {
        lemma_str_order(x.drop_first(), y.drop_first());
        if x.drop_first() == y.drop_first() {
            assert(x =~= seq![x[0]] + x.drop_first());
            assert(y =~= seq![y[0]] + y.drop_first());
        }
        if x.len() < y.len() && y.take(x.len() as int) == x {
            assert(y.drop_first().take(x.drop_first().len() as int) =~= x.drop_first());
        }
    } else if x.len() > 0 && y.len() > 0 {
        let a = x[0];
        let b = y[0];
        assert((a as u32) != (b as u32)) by {
            if (a as u32) == (b as u32) {
                vstd::utf8::char_u32_cast(a, a as u32);
                vstd::utf8::char_u32_cast(b, b as u32);
            }
        }
        if x.len() < y.len() && y.take(x.len() as int) == x {
            assert(y.take(x.len() as int)[0] == y[0]);
        }
    } else if x.len() == 0 && y.len() == 0 {
        assert(x =~= y);
    }
}

// ---------------------------------------------------------------------------
// Children and descendants

/// `x` is a node strictly under `r`: its position extends `r`'s, and its
/// value is what `r`'s value holds at the rest of the position.
pub open spec fn strictly_under(r: RefModel, x: RefModel) -> bool {
    match (r, x) {
        (RefModel::Node(p, v), RefModel::Node(q, y)) => q.len() > p.len() && q.take(p.len() as int) == p
            && resolve(v, q.skip(p.len() as int)) == Some(y),
        _ => false,
    }
}

/// `x` is a child of `r`: strictly under it, one step down.
pub open spec fn child_of(r: RefModel, x: RefModel) -> bool {
    strictly_under(r, x) && (x matches RefModel::Node(q, _) && r matches RefModel::Node(p, _) && q.len() == p.len() + 1)
}

/// `x` is strictly under some node of `c`.
pub open spec fn under_some(c: Seq<RefModel>, x: RefModel) -> bool {
    exists|i: int| 0 <= i < c.len() && strictly_under(#[trigger] c[i], x)
}

/// `x` is a child of some node of `c`.
pub open spec fn child_of_some(c: Seq<RefModel>, x: RefModel) -> bool {
    exists|i: int| 0 <= i < c.len() && child_of(#[trigger] c[i], x)
}

/// `out` holds the nodes strictly under the nodes of `c`, and all of them.
pub open spec fn all_under(c: Seq<RefModel>, out: Seq<RefModel>) -> bool {
    &&& forall|k: int| 0 <= k < out.len() ==> under_some(c, #[trigger] out[k])
    &&& forall|i: int, x: RefModel| 0 <= i < c.len() && #[trigger] strictly_under(c[i], x) ==> out.contains(x)
}

/// `out` holds the children of the nodes of `c`, and all of them.
pub open spec fn all_children(c: Seq<RefModel>, out: Seq<RefModel>) -> bool {
    &&& forall|k: int| 0 <= k < out.len() ==> child_of_some(c, #[trigger] out[k])
    &&& forall|i: int, x: RefModel| 0 <= i < c.len() && #[trigger] child_of(c[i], x) ==> out.contains(x)
}

proof fn lemma_under_child(p: Seq<usize>, v: JsonValue, i: int, x: RefModel)
    requires
        0 <= i < v.kid_count(),
        strictly_under(RefModel::Node(p.push(i as usize), v.kid(i)), x) || x == RefModel::Node(p.push(i as usize), v.kid(i)),
    ensures
        strictly_under(RefModel::Node(p, v), x),
{
    lemma_kid_index(v, i);
    let c = p.push(i as usize);
    if let RefModel::Node(q, y) = x {
        assert(q.take(c.len() as int) == c);
        assert(q.take(p.len() as int) =~= c.take(p.len() as int));
        assert(c.take(p.len() as int) =~= p);
        let rest = q.skip(p.len() as int);
        assert(rest[0] == q[p.len() as int]);
        assert(q[p.len() as int] == c[p.len() as int]);
        assert(rest.drop_first() =~= q.skip(c.len() as int));
        if x == RefModel::Node(c, v.kid(i)) {
            assert(q.skip(c.len() as int) =~= Seq::<usize>::empty());
        }
    }
}

/// A walk collecting children at each node collects exactly the nodes
/// strictly under the node it starts from.
proof fn lemma_walk_children_exact(p: Seq<usize>, v: JsonValue)
    ensures
        forall|k: int| 0 <= k < walk_tree(WalkKind::Children, p, v).len()
            ==> strictly_under(RefModel::Node(p, v), #[trigger] walk_tree(WalkKind::Children, p, v)[k]),
        forall|x: RefModel| #[trigger] strictly_under(RefModel::Node(p, v), x) ==> walk_tree(WalkKind::Children, p, v).contains(x),
    decreases v,
{
    let r = RefModel::Node(p, v);
    let wt = walk_tree(WalkKind::Children, p, v);
    let kids = walk_kids(WalkKind::Children, p, v);
    let ch = r.children();
    assert(collect_at(WalkKind::Children, r) == ch);
    assert forall|i: int| 0 <= i < kids.len() implies #[trigger] kids[i] == walk_tree(WalkKind::Children, p.push(i as usize), v.kid(i))
        && (forall|k: int| 0 <= k < kids[i].len() ==> strictly_under(r, #[trigger] kids[i][k]))
        && (forall|x: RefModel| #[trigger] strictly_under(RefModel::Node(p.push(i as usize), v.kid(i)), x) ==> kids[i].contains(x)) by {
        let c = v.kid(i);
        assert(decreases_to!(v => c)) by {
            match v {
                JsonValue::Array(a) => assert(decreases_to!(v => a@[i])),
                JsonValue::Object(m) => {
                    assert(decreases_to!(v => m@[i]));
                    assert(decreases_to!(m@[i] => m@[i].1));
                },
                _ => {},
            }
        }
        lemma_walk_children_exact(p.push(i as usize), c);
        let ci = walk_tree(WalkKind::Children, p.push(i as usize), c);
        assert(kids[i] == ci);
        assert forall|k: int| 0 <= k < kids[i].len() implies strictly_under(r, #[trigger] kids[i][k]) by {
            assert(strictly_under(RefModel::Node(p.push(i as usize), c), ci[k]));
            lemma_under_child(p, v, i, kids[i][k]);
        }
    }
    assert forall|k: int| 0 <= k < wt.len() implies strictly_under(r, #[trigger] wt[k]) by {
        if k < ch.len() {
            assert(wt[k] == ch[k]);
            assert(ch[k] == r.child(k));
            lemma_under_child(p, v, k, r.child(k));
        } else {
            crate::deletion::lemma_flatten_member(kids, k - ch.len());
            let (i, j) = choose|i: int, j: int| 0 <= i < kids.len() && 0 <= j < kids[i].len() && kids.flatten()[k - ch.len()] == #[trigger] kids[i][j];
            assert(wt[k] == kids[i][j]);
        }
    }
    assert forall|x: RefModel| #[trigger] strictly_under(r, x) implies wt.contains(x) by {
        if let RefModel::Node(q, y) = x {
            let rest = q.skip(p.len() as int);
            let i = rest[0] as int;
            assert(i < v.kid_count());
            lemma_kid_index(v, i);
            let c = p.push(i as usize);
            assert(q.take(c.len() as int) =~= c) by {
                assert(q.take(p.len() as int) == p);
                assert(q[p.len() as int] == rest[0]);
            }
            assert(q.skip(c.len() as int) =~= rest.drop_first());
            if q.len() == c.len() {
                assert(q =~= c);
                assert(rest.drop_first() =~= Seq::<usize>::empty());
                assert(resolve(v.kid(i), rest.drop_first()) == Some(v.kid(i)));
                assert(resolve(v, rest) == resolve(v.kid(i), rest.drop_first()));
                assert(y == v.kid(i));
                assert(ch[i] == x);
                assert(wt[i] == x);
            } else {
                assert(strictly_under(RefModel::Node(c, v.kid(i)), x));
                assert(kids[i].contains(x));
                crate::deletion::lemma_flatten_contains(kids, i, x);
                let j = choose|j: int| 0 <= j < kids.flatten().len() && kids.flatten()[j] == x;
                assert(wt[ch.len() + j] == x);
            }
        }
    }
}

/// Walking all descendants of a selection gives exactly the nodes strictly
/// under its nodes.
pub proof fn law_descendants_exact(c: Seq<RefModel>)
    ensures
        all_under(c, walk(WalkKind::Children, c)),
{
    let out = walk(WalkKind::Children, c);
    let f = walk_fn(WalkKind::Children);
    assert forall|i: int| #![trigger c[i]] 0 <= i < c.len() implies
        (forall|k: int| 0 <= k < f(c[i]).len() ==> strictly_under(c[i], #[trigger] f(c[i])[k]))
        && (forall|x: RefModel| #[trigger] strictly_under(c[i], x) ==> f(c[i]).contains(x)) by {
        if let RefModel::Node(p, v) = c[i] {
            lemma_walk_children_exact(p, v);
        }
    }
    assert forall|k: int| 0 <= k < out.len() implies under_some(c, #[trigger] out[k]) by {
        crate::deletion::lemma_flatten_member(c.map_values(f), k);
        let (i, j) = choose|i: int, j: int| 0 <= i < c.map_values(f).len() && 0 <= j < c.map_values(f)[i].len()
            && c.map_values(f).flatten()[k] == #[trigger] c.map_values(f)[i][j];
        assert(c.map_values(f)[i] == f(c[i]));
    }
    assert forall|i: int, x: RefModel| 0 <= i < c.len() && #[trigger] strictly_under(c[i], x) implies out.contains(x) by {
        assert(c.map_values(f)[i] == f(c[i]));
        crate::deletion::lemma_flatten_contains(c.map_values(f), i, x);
    }
}

proof fn lemma_children_exact(r: RefModel)
    ensures
        forall|k: int| 0 <= k < r.children().len() ==> child_of(r, #[trigger] r.children()[k]),
        forall|x: RefModel| #[trigger] child_of(r, x) ==> r.children().contains(x),
{
    if let RefModel::Node(p, v) = r {
        assert forall|k: int| 0 <= k < r.children().len() implies child_of(r, #[trigger] r.children()[k]) by {
            lemma_kid_index(v, k);
            assert(r.children()[k] == r.child(k));
            lemma_under_child(p, v, k, r.child(k));
        }
        assert forall|x: RefModel| #[trigger] child_of(r, x) implies r.children().contains(x) by {
            if let RefModel::Node(q, y) = x {
                let rest = q.skip(p.len() as int);
                let i = rest[0] as int;
                assert(i < v.kid_count());
                lemma_kid_index(v, i);
                assert(rest.drop_first() =~= Seq::<usize>::empty());
                assert(resolve(v.kid(i), rest.drop_first()) == Some(v.kid(i)));
                assert(resolve(v, rest) == resolve(v.kid(i), rest.drop_first()));
                assert(q =~= p.push(i as usize)) by {
                    assert(q.take(p.len() as int) == p);
                    assert(q[p.len() as int] == rest[0]);
                }
                assert(r.children()[i] == x);
            }
        }
    }
}

/// Moving a selection to all children gives exactly the children of its nodes.
pub proof fn law_children_exact(c: Seq<RefModel>)
    ensures
        all_children(c, next_all(c)),
{
    let out = next_all(c);
    let f = children_fn();
    assert forall|i: int| #![trigger c[i]] 0 <= i < c.len() implies
        (forall|k: int| 0 <= k < f(c[i]).len() ==> child_of(c[i], #[trigger] f(c[i])[k]))
        && (forall|x: RefModel| #[trigger] child_of(c[i], x) ==> f(c[i]).contains(x)) by {
        lemma_children_exact(c[i]);
    }
    assert forall|k: int| 0 <= k < out.len() implies child_of_some(c, #[trigger] out[k]) by {
        crate::deletion::lemma_flatten_member(c.map_values(f), k);
        let (i, j) = choose|i: int, j: int| 0 <= i < c.map_values(f).len() && 0 <= j < c.map_values(f)[i].len()
            && c.map_values(f).flatten()[k] == #[trigger] c.map_values(f)[i][j];
        assert(c.map_values(f)[i] == f(c[i]));
    }
    assert forall|i: int, x: RefModel| 0 <= i < c.len() && #[trigger] child_of(c[i], x) implies out.contains(x) by {
        assert(c.map_values(f)[i] == f(c[i]));
        crate::deletion::lemma_flatten_contains(c.map_values(f), i, x);
    }
}

/// `..` is pending: on top of the token stack, or under an opened bracket.
pub open spec fn descent_pending(t: Seq<Pending>) -> bool {
    top_is(t, Pending::Leaves) || (top_is(t, Pending::Array) && top_is(t.drop_last(), Pending::Leaves))
}

/// A filter opened after `..` (`..[?(...)]`) is applied to all nodes strictly
/// under the selection; any other filter to the selection itself.
pub proof fn law_filter_after_descent(s: SelectorModel, c: Seq<RefModel>)
    requires
        s.selectors.len() == 0,
        s.current == Some(c),
    ensures
        step(s, TokenModel::Relative) matches Ok(s2) && s2.terms == s.terms.push(None)
            && (s2.current matches Some(c2) && if top_is(s.tokens, Pending::Array) && top_is(s.tokens.drop_last(), Pending::Leaves) {
                all_under(c, c2) && s2.tokens == s.tokens.drop_last().drop_last().push(Pending::Array)
            } else {
                c2 == c && s2.tokens == s.tokens
            }),
{
    assert(close_nested(s, TokenModel::Relative) == Ok::<SelectorModel, Halt>(s));
    law_descendants_exact(c);
}

/// The wildcard selects all nodes strictly under the selection when it
/// follows `..` (written `..*` or `..[*]`), and the children of the
/// selection's nodes otherwise (`.*`, `[*]`).
pub proof fn law_wildcard(s: SelectorModel, c: Seq<RefModel>)
    requires
        s.selectors.len() == 0,
        s.current == Some(c),
    ensures
        step(s, TokenModel::All) matches Ok(s2) && (s2.current matches Some(c2) && if descent_pending(s.tokens) {
            all_under(c, c2)
        } else {
            all_children(c, c2)
        }),
{
    assert(close_nested(s, TokenModel::All) == Ok::<SelectorModel, Halt>(s));
    law_descendants_exact(c);
    law_children_exact(c);
}

// ---------------------------------------------------------------------------
// Slices

/// Index `j` of the progression `start, start + step, ...`.
pub open spec fn nth_index(start: int, j: int, step: int) -> int {
    start + j * step
}

proof fn lemma_stepped_picks(r: RefModel, len: int, f: int, t: int, step: int)
    requires
        f >= 0,
        step > 0,
        len == r.value().kid_count(),
    ensures
        forall|k: int| 0 <= k < stepped(f, t, step).flat_map(element_index(r, len)).len()
            ==> #[trigger] stepped(f, t, step).flat_map(element_index(r, len))[k] == r.child(nth_index(f, k, step))
                && nth_index(f, k, step) < t && nth_index(f, k, step) < len,
        forall|j: int| 0 <= j && #[trigger] nth_index(f, j, step) < t && nth_index(f, j, step) < len
            ==> j < stepped(f, t, step).flat_map(element_index(r, len)).len(),
    decreases if f < t { t - f } else { 0 },
{
    let h = element_index(r, len);
    let g = stepped(f, t, step).flat_map(h);
    assert forall|j: int| 0 <= j implies #[trigger] nth_index(f, j, step) >= f by {
        assert(nth_index(f, j, step) >= f) by (nonlinear_arith) requires 0 <= j, step > 0;
    }
    if f >= t {
        assert(stepped(f, t, step) =~= seq![]);
        assert(g =~= Seq::<RefModel>::empty());
    } else if f >= len {
        crate::walk::lemma_stepped_past_end(r, len, f, t, step);
    } else {
        crate::walk::lemma_flat_map_cons(f, stepped(f + step, t, step), h);
        assert(stepped(f, t, step) =~= seq![f] + stepped(f + step, t, step));
        lemma_stepped_picks(r, len, f + step, t, step);
        let g2 = stepped(f + step, t, step).flat_map(h);
        assert(h(f) =~= seq![r.child(f)]);
        assert(g =~= seq![r.child(f)] + g2);
        assert forall|k: int| 0 <= k < g.len() implies #[trigger] g[k] == r.child(nth_index(f, k, step))
            && nth_index(f, k, step) < t && nth_index(f, k, step) < len by {
            if k == 0 {
                assert(nth_index(f, k, step) == f) by (nonlinear_arith) requires k == 0;
            } else {
                assert(g[k] == g2[k - 1]);
                assert(nth_index(f + step, k - 1, step) == nth_index(f, k, step)) by (nonlinear_arith);
            }
        }
        assert forall|j: int| 0 <= j && #[trigger] nth_index(f, j, step) < t && nth_index(f, j, step) < len implies j < g.len() by {
            if j > 0 {
                assert(nth_index(f + step, j - 1, step) == nth_index(f, j, step)) by (nonlinear_arith);
                assert(j - 1 < g2.len());
            }
        }
    }
}

/// A slice `[from:to:step]` of an array picks the elements at indexes
/// `start, start + step, start + 2 * step, ...` that come before both the
/// end index and the array's end, in that order, and no others: `start` and
/// `end` being `from` and `to` counted from the end when negative (0 and
/// the length when absent).
pub proof fn law_slice_exact(r: RefModel, from: Option<isize>, to: Option<isize>, step: int)
    requires
        step > 0,
        r.value() is Array,
    ensures
        ({
            let len = r.value().kid_count() as int;
            let start = match from { Some(x) => abs_index_spec(x as int, len), None => 0 };
            let end = match to { Some(x) => abs_index_spec(x as int, len), None => len };
            &&& forall|k: int| 0 <= k < slice_of(r, from, to, step).len()
                ==> #[trigger] slice_of(r, from, to, step)[k] == r.child(nth_index(start, k, step))
                    && nth_index(start, k, step) < end && nth_index(start, k, step) < len
            &&& forall|j: int| 0 <= j && #[trigger] nth_index(start, j, step) < end && nth_index(start, j, step) < len
                ==> j < slice_of(r, from, to, step).len()
        }),
{
    let len = r.value().kid_count() as int;
    let start = match from { Some(x) => abs_index_spec(x as int, len), None => 0 };
    let end = match to { Some(x) => abs_index_spec(x as int, len), None => len };
    assert(start >= 0);
    lemma_stepped_picks(r, len, start, end, step);
}

// ---------------------------------------------------------------------------
// Indexes and members

/// A subscript `n` of an array of length `len` picks the element at `n`
/// when `0 <= n < len`, the one at `len + n` when `-len <= n < 0`, and
/// nothing otherwise; anything but an array gives nothing.
pub proof fn law_index_exact(r: RefModel, n: int)
    requires
        isize::MIN <= n <= isize::MAX,
    ensures
        element_at(r, n) == (if r.value() is Array && 0 <= n < r.value().kid_count() {
            seq![r.child(n)]
        } else if r.value() is Array && -(r.value().kid_count() as int) <= n < 0 {
            seq![r.child(r.value().kid_count() + n)]
        } else {
            Seq::<RefModel>::empty()
        }),
{
    if let JsonValue::Array(a) = r.value() {
        assert(a.len() == a@.len());
    }
}

/// The member named `k` of a node: when the node is an object with a
/// member of that name, its first such member (a child of the node), and
/// nothing otherwise.
pub proof fn law_member_exact(r: RefModel, k: Seq<char>)
    ensures
        member_of(r, k).len() <= 1,
        member_of(r, k).len() == 1 <==> (r.value() matches JsonValue::Object(m)
            && exists|i: int| 0 <= i < m@.len() && (#[trigger] m@[i]).0@ == k),
        member_of(r, k).len() == 1 ==> (r.value() matches JsonValue::Object(m) && exists|i: int|
            0 <= i < m@.len() && m@[i].0@ == k && member_of(r, k)[0] == r.child(i)
            && child_of(r, member_of(r, k)[0])
            && forall|j: int| 0 <= j < i ==> (#[trigger] m@[j]).0@ != k),
{
    if let JsonValue::Object(m) = r.value() {
        lemma_find_key_some(m@, k);
        if exists|i: int| 0 <= i < m@.len() && (#[trigger] m@[i]).0@ == k {
            let i0 = choose|i: int| 0 <= i < m@.len() && (#[trigger] m@[i]).0@ == k;
            lemma_first_key(m@, k, i0);
        }
        if let Some(i) = find_key(m@, k) {
            if let RefModel::Node(p, v) = r {
                lemma_kid_index(v, i);
                lemma_under_child(p, v, i, r.child(i));
            }
        }
    }
}

/// A key that occurs among the members is found.
proof fn lemma_first_key(m: Seq<(String, JsonValue)>, k: Seq<char>, i: int)
    requires
        0 <= i < m.len(),
        m[i].0@ == k,
    ensures
        find_key(m, k) is Some,
    decreases i,
{
    if exists|j: int| 0 <= j < i && #[trigger] m[j].0@ == k {
        let j = choose|j: int| 0 <= j < i && #[trigger] m[j].0@ == k;
        lemma_first_key(m, k, j);
    } else {
        crate::refs::lemma_find_key(m, k, i);
    }
}

// ---------------------------------------------------------------------------
// Walks through all nodes at or under a selection

/// `x` is collected by `f` at some node at or under the node `v` at `p`.
pub open spec fn collected_below(f: WalkKind, p: Seq<usize>, v: JsonValue, x: RefModel) -> bool {
    exists|q: Seq<usize>| #[trigger] resolve(v, q) is Some && collect_at(f, RefModel::Node(p + q, resolve(v, q)->Some_0)).contains(x)
}

/// A walk collects, at every node at or under the node it starts from, what
/// `f` collects there, and nothing else.
pub proof fn lemma_walk_tree_exact(f: WalkKind, p: Seq<usize>, v: JsonValue)
    ensures
        forall|k: int| 0 <= k < walk_tree(f, p, v).len() ==> collected_below(f, p, v, #[trigger] walk_tree(f, p, v)[k]),
        forall|q: Seq<usize>, x: RefModel| #[trigger] resolve(v, q) is Some
            && #[trigger] collect_at(f, RefModel::Node(p + q, resolve(v, q)->Some_0)).contains(x)
            ==> walk_tree(f, p, v).contains(x),
    decreases v,
{
    let r = RefModel::Node(p, v);
    let wt = walk_tree(f, p, v);
    let kids = walk_kids(f, p, v);
    let here = collect_at(f, r);
    let e = Seq::<usize>::empty();
    assert(p + e =~= p);
    assert(resolve(v, e) == Some(v));
    assert forall|i: int| 0 <= i < kids.len() implies #[trigger] kids[i] == walk_tree(f, p.push(i as usize), v.kid(i))
        && (forall|k: int| 0 <= k < kids[i].len() ==> collected_below(f, p, v, #[trigger] kids[i][k]))
        && (forall|q: Seq<usize>, x: RefModel| #[trigger] resolve(v.kid(i), q) is Some
            && #[trigger] collect_at(f, RefModel::Node(p.push(i as usize) + q, resolve(v.kid(i), q)->Some_0)).contains(x)
            ==> kids[i].contains(x)) by {
        let c = v.kid(i);
        let cp = p.push(i as usize);
        lemma_kid_index(v, i);
        assert(decreases_to!(v => c)) by {
            match v {
                JsonValue::Array(a) => assert(decreases_to!(v => a@[i])),
                JsonValue::Object(m) => {
                    assert(decreases_to!(v => m@[i]));
                    assert(decreases_to!(m@[i] => m@[i].1));
                },
                _ => {},
            }
        }
        lemma_walk_tree_exact(f, cp, c);
        let ci = walk_tree(f, cp, c);
        assert(kids[i] == ci);
        assert forall|k: int| 0 <= k < kids[i].len() implies collected_below(f, p, v, #[trigger] kids[i][k]) by {
            assert(collected_below(f, cp, c, ci[k]));
            let q1 = choose|q1: Seq<usize>| #[trigger] resolve(c, q1) is Some
                && collect_at(f, RefModel::Node(cp + q1, resolve(c, q1)->Some_0)).contains(ci[k]);
            let q = seq![i as usize] + q1;
            assert(q.drop_first() =~= q1);
            assert(q[0] == i as usize);
            assert(resolve(v, q) == resolve(c, q1));
            assert(p + q =~= cp + q1);
        }
    }
    assert forall|k: int| 0 <= k < wt.len() implies collected_below(f, p, v, #[trigger] wt[k]) by {
        if k < here.len() {
            assert(wt[k] == here[k]);
            assert(here.contains(here[k]));
            assert(collect_at(f, RefModel::Node(p + e, resolve(v, e)->Some_0)) == here);
        } else {
            crate::deletion::lemma_flatten_member(kids, k - here.len());
            let (i, j) = choose|i: int, j: int| 0 <= i < kids.len() && 0 <= j < kids[i].len() && kids.flatten()[k - here.len()] == #[trigger] kids[i][j];
            assert(wt[k] == kids[i][j]);
        }
    }
    assert forall|q: Seq<usize>, x: RefModel| #[trigger] resolve(v, q) is Some
        && #[trigger] collect_at(f, RefModel::Node(p + q, resolve(v, q)->Some_0)).contains(x) implies wt.contains(x) by {
        if q.len() == 0 {
            assert(q =~= e);
            let j = choose|j: int| 0 <= j < here.len() && here[j] == x;
            assert(wt[j] == x);
        } else {
            let i = q[0] as int;
            let q1 = q.drop_first();
            lemma_kid_index(v, i);
            assert(resolve(v, q) == resolve(v.kid(i), q1));
            assert(p + q =~= p.push(i as usize) + q1);
            assert(kids[i].contains(x));
            crate::deletion::lemma_flatten_contains(kids, i, x);
            let j = choose|j: int| 0 <= j < kids.flatten().len() && kids.flatten()[j] == x;
            assert(wt[here.len() + j] == x);
        }
    }
}

/// `x` is collected by `f` at some node at or under the node `r`.
pub open spec fn collected_from(f: WalkKind, r: RefModel, x: RefModel) -> bool {
    match r {
        RefModel::Node(p, v) => collected_below(f, p, v, x),
        RefModel::Null => false,
    }
}

/// `x` is collected by `f` at some node at or under some node of `c`.
pub open spec fn collected_under_some(f: WalkKind, c: Seq<RefModel>, x: RefModel) -> bool {
    exists|i: int| 0 <= i < c.len() && collected_from(f, #[trigger] c[i], x)
}

/// A walk from a selection collects what `f` collects at every node at or
/// under the selection's nodes, and nothing else.
pub proof fn law_walk_exact(f: WalkKind, c: Seq<RefModel>)
    ensures
        forall|k: int| 0 <= k < walk(f, c).len() ==> collected_under_some(f, c, #[trigger] walk(f, c)[k]),
        forall|i: int, x: RefModel| 0 <= i < c.len() && #[trigger] collected_from(f, c[i], x) ==> walk(f, c).contains(x),
{
    let out = walk(f, c);
    let g = walk_fn(f);
    assert forall|i: int| #![trigger c[i]] 0 <= i < c.len() implies
        (forall|k: int| 0 <= k < g(c[i]).len() ==> collected_from(f, c[i], #[trigger] g(c[i])[k]))
        && (forall|x: RefModel| #[trigger] collected_from(f, c[i], x) ==> g(c[i]).contains(x)) by {
        if let RefModel::Node(p, v) = c[i] {
            lemma_walk_tree_exact(f, p, v);
            assert forall|x: RefModel| #[trigger] collected_from(f, c[i], x) implies g(c[i]).contains(x) by {
                let q = choose|q: Seq<usize>| #[trigger] resolve(v, q) is Some
                    && collect_at(f, RefModel::Node(p + q, resolve(v, q)->Some_0)).contains(x);
            }
        }
    }
    assert forall|k: int| 0 <= k < out.len() implies collected_under_some(f, c, #[trigger] out[k]) by {
        crate::deletion::lemma_flatten_member(c.map_values(g), k);
        let (i, j) = choose|i: int, j: int| 0 <= i < c.map_values(g).len() && 0 <= j < c.map_values(g)[i].len()
            && c.map_values(g).flatten()[k] == #[trigger] c.map_values(g)[i][j];
        assert(c.map_values(g)[i] == g(c[i]));
    }
    assert forall|i: int, x: RefModel| 0 <= i < c.len() && #[trigger] collected_from(f, c[i], x) implies out.contains(x) by {
        assert(c.map_values(g)[i] == g(c[i]));
        crate::deletion::lemma_flatten_contains(c.map_values(g), i, x);
    }
}

// ---------------------------------------------------------------------------
// Keys and subscripts in a path

/// `x` is among what `f` gives for some element of `s`.
pub open spec fn from_some<A, B>(s: Seq<A>, f: spec_fn(A) -> Seq<B>, x: B) -> bool {
    exists|i: int| 0 <= i < s.len() && #[trigger] f(s[i]).contains(x)
}

/// What a flat map gives is what `f` gives for the elements, and all of it.
pub proof fn lemma_flat_map_exact<A, B>(s: Seq<A>, f: spec_fn(A) -> Seq<B>)
    ensures
        forall|k: int| 0 <= k < s.flat_map(f).len() ==> from_some(s, f, #[trigger] s.flat_map(f)[k]),
        forall|i: int, x: B| 0 <= i < s.len() && #[trigger] f(s[i]).contains(x) ==> s.flat_map(f).contains(x),
{
    assert forall|k: int| 0 <= k < s.flat_map(f).len() implies from_some(s, f, #[trigger] s.flat_map(f)[k]) by {
        crate::deletion::lemma_flatten_member(s.map_values(f), k);
        let (i, j) = choose|i: int, j: int| 0 <= i < s.map_values(f).len() && 0 <= j < s.map_values(f)[i].len()
            && s.map_values(f).flatten()[k] == #[trigger] s.map_values(f)[i][j];
        assert(s.map_values(f)[i] == f(s[i]));
        assert(f(s[i]).contains(s.flat_map(f)[k]));
    }
    assert forall|i: int, x: B| 0 <= i < s.len() && #[trigger] f(s[i]).contains(x) implies s.flat_map(f).contains(x) by {
        assert(s.map_values(f)[i] == f(s[i]));
        crate::deletion::lemma_flatten_contains(s.map_values(f), i, x);
    }
}

/// `x` is the member of some node of `c` named by some key of `keys`.
pub open spec fn member_of_some(c: Seq<RefModel>, keys: Seq<Seq<char>>, x: RefModel) -> bool {
    exists|i: int, j: int| 0 <= i < c.len() && 0 <= j < keys.len() && #[trigger] member_of(c[i], keys[j]).contains(x)
}

/// `x` is the element at subscript `n` of some node of `c`.
pub open spec fn element_of_some(c: Seq<RefModel>, n: int, x: RefModel) -> bool {
    exists|i: int| 0 <= i < c.len() && #[trigger] element_at(c[i], n).contains(x)
}

/// `.key` and `['a', 'b']` give, for each selected node in turn, its member
/// named by each key (see `law_member_exact`), and nothing else.
pub proof fn law_members_exact(c: Seq<RefModel>, keys: Seq<Seq<char>>)
    ensures
        forall|k: int| 0 <= k < members_of(c, keys).len() ==> member_of_some(c, keys, #[trigger] members_of(c, keys)[k]),
        forall|i: int, j: int, x: RefModel| 0 <= i < c.len() && 0 <= j < keys.len() && #[trigger] member_of(c[i], keys[j]).contains(x)
            ==> members_of(c, keys).contains(x),
{
    let out = members_of(c, keys);
    let g = members_fn(keys);
    lemma_flat_map_exact(c, g);
    assert forall|k: int| 0 <= k < out.len() implies member_of_some(c, keys, #[trigger] out[k]) by {
        assert(from_some(c, g, out[k]));
        let i = choose|i: int| 0 <= i < c.len() && #[trigger] g(c[i]).contains(out[k]);
        lemma_flat_map_exact(keys, member_fn(c[i]));
        let m = choose|m: int| 0 <= m < g(c[i]).len() && #[trigger] g(c[i])[m] == out[k];
        assert(from_some(keys, member_fn(c[i]), g(c[i])[m]));
        let j = choose|j: int| 0 <= j < keys.len() && #[trigger] member_fn(c[i])(keys[j]).contains(out[k]);
        assert(member_of(c[i], keys[j]).contains(out[k]));
    }
    assert forall|i: int, j: int, x: RefModel| 0 <= i < c.len() && 0 <= j < keys.len() && #[trigger] member_of(c[i], keys[j]).contains(x)
        implies out.contains(x) by {
        lemma_flat_map_exact(keys, member_fn(c[i]));
        assert(member_fn(c[i])(keys[j]).contains(x));
        assert(g(c[i]).contains(x));
    }
}

/// A subscript gives, for each selected array, its element at that
/// subscript (see `law_index_exact`), and nothing else.
pub proof fn law_elements_exact(c: Seq<RefModel>, n: int)
    ensures
        forall|k: int| 0 <= k < elements_at(c, n).len() ==> element_of_some(c, n, #[trigger] elements_at(c, n)[k]),
        forall|i: int, x: RefModel| 0 <= i < c.len() && #[trigger] element_at(c[i], n).contains(x) ==> elements_at(c, n).contains(x),
{
    lemma_flat_map_exact(c, element_fn(n));
    assert forall|k: int| 0 <= k < elements_at(c, n).len() implies element_of_some(c, n, #[trigger] elements_at(c, n)[k]) by {
        assert(from_some(c, element_fn(n), elements_at(c, n)[k]));
        let i = choose|i: int| 0 <= i < c.len() && #[trigger] element_fn(n)(c[i]).contains(elements_at(c, n)[k]);
        assert(element_at(c[i], n).contains(elements_at(c, n)[k]));
    }
    assert forall|i: int, x: RefModel| 0 <= i < c.len() && #[trigger] element_at(c[i], n).contains(x) implies elements_at(c, n).contains(x) by {
        assert(element_fn(n)(c[i]).contains(x));
    }
}

/// A key in a path, outside filters: `.key` moves the selection to the
/// members named `key`, `..key` to the members named `key` of all nodes at
/// or under the selection, and inside brackets the key is held for the
/// closing bracket.
pub proof fn law_key_step(s: SelectorModel, c: Seq<RefModel>, k: Seq<char>)
    requires
        s.selectors.len() == 0,
        s.current == Some(c),
        s.terms.len() == 0,
        s.tokens.len() > 0,
    ensures
        step(s, TokenModel::Key(k)) matches Ok(s2) && s2.tokens == (if top_is(s.tokens, Pending::Array) {
            s.tokens
        } else {
            s.tokens.drop_last()
        }) && (if top_is(s.tokens, Pending::Array) {
            s2.current == Some(c) && s2.terms == seq![Some(TermModel::Str(k))]
        } else if top_is(s.tokens, Pending::In) {
            s2.current == Some(members_of(c, seq![k]))
        } else {
            s2.current == Some(walk(WalkKind::MemberValue(k), c))
        }),
{
    assert(close_nested(s, TokenModel::Key(k)) == Ok::<SelectorModel, Halt>(s));
    assert(s.terms.push(Some(TermModel::Str(k))) =~= seq![Some(TermModel::Str(k))]);
}

/// Closing a bracket outside filters: a number held there moves the
/// selection to the elements at that subscript (the number truncated), a key
/// to the members of that name, the nodes a filter kept become the
/// selection, and a filter that kept nothing gives a selection of one
/// `null`.
pub proof fn law_close_bracket(s: SelectorModel, c: Seq<RefModel>)
    requires
        s.selectors.len() == 0,
        s.current == Some(c),
        s.terms.len() == 1,
    ensures
        step(s, TokenModel::ArrayEof) matches Ok(s2) && s2.terms.len() == 0 && s2.tokens == (if s.tokens.len() > 0 {
            s.tokens.drop_last()
        } else {
            s.tokens
        }) && (match s.terms[0] {
            Some(TermModel::Num(n)) => s2.current == Some(elements_at(c, double_as_isize(n.f64_bits))),
            Some(TermModel::Str(key)) => s2.current == Some(members_of(c, seq![key])),
            Some(TermModel::Json(_, v)) => s2.current == Some(if v.len() == 0 { seq![RefModel::Null] } else { v }),
            Some(TermModel::Bool(false)) => s2.current == Some(seq![RefModel::Null]),
            _ => s2.current == Some(c),
        }),
{
    assert(close_nested(s, TokenModel::ArrayEof) == Ok::<SelectorModel, Halt>(s));
    assert(s.terms.last() == s.terms[0]);
}

// ---------------------------------------------------------------------------
// Filters against a literal

/// The value `x` compared by `op` with literal `t`: strings in the order of
/// `str`, numbers as doubles, booleans with `false < true`; values and
/// literals of different kinds never pass.
pub open spec fn compares(op: FilterOp, x: JsonValue, t: TermModel) -> bool {
    match x {
        JsonValue::String(a) => t matches TermModel::Str(b) && string_test(op, a@, b),
        JsonValue::Number(a) => t matches TermModel::Num(b) && double_test(op, a.f64_bits, b.f64_bits),
        JsonValue::Bool(a) => t matches TermModel::Bool(b) && bool_test(op, a, b),
        _ => false,
    }
}

/// Node `r` passes a filter against literal `t`: an object through its
/// member named by the filter's key (none without a key), anything else
/// by its own value.
pub open spec fn passes(op: FilterOp, fk: Option<KeyModel>, r: RefModel, t: TermModel) -> bool {
    if r.value() is Object {
        fk matches Some(KeyModel::String(k)) && member_of(r, k).len() == 1 && compares(op, member_of(r, k)[0].value(), t)
    } else {
        compares(op, r.value(), t)
    }
}

/// Comparing nodes with a literal keeps, in order, the nodes that pass
/// (see `passes`), and all of them; when none passes the outcome is
/// `false`.
pub proof fn law_literal_filter(op: FilterOp, fk: Option<KeyModel>, v: Seq<RefModel>, t: TermModel)
    ensures
        (nodes_vs_literal(op, fk, v, t) == TermModel::Bool(false)) <==> (forall|k: int| 0 <= k < v.len() ==> !passes(op, fk, #[trigger] v[k], t)),
        nodes_vs_literal(op, fk, v, t) is Bool || nodes_vs_literal(op, fk, v, t) is Json,
        nodes_vs_literal(op, fk, v, t) matches TermModel::Json(key, w) ==> key is None
            && (forall|k: int| 0 <= k < w.len() ==> v.contains(#[trigger] w[k]) && passes(op, fk, w[k], t))
            && (forall|k: int| 0 <= k < v.len() && passes(op, fk, #[trigger] v[k], t) ==> w.contains(v[k])),
{
    let p = literal_test(op, fk, t);
    assert forall|x: RefModel| #[trigger] p(x) == passes(op, fk, x, t) by {
        if let JsonValue::Object(m) = x.value() {
            if let Some(KeyModel::String(k)) = fk {
                lemma_find_key_some(m@, k);
                if let Some(i) = find_key(m@, k) {
                    assert(member_of(x, k)[0] == x.child(i));
                }
            }
        }
    }
    let w = keep(v, p);
    lemma_keep_subset(v, p);
    lemma_keep_passes(v, p);
    assert forall|k: int| 0 <= k < v.len() && passes(op, fk, #[trigger] v[k], t) implies w.contains(v[k]) by {
        assert(p(v[k]));
        assert(v.contains(v[k]));
        lemma_keep_contains(v, p, v[k]);
    }
    if w.len() > 0 {
        assert(passes(op, fk, w[0], t));
        assert(v.contains(w[0]));
        let j = choose|j: int| 0 <= j < v.len() && v[j] == w[0];
        assert(passes(op, fk, v[j], t));
    } else {
        assert forall|k: int| 0 <= k < v.len() implies !passes(op, fk, #[trigger] v[k], t) by {
            if passes(op, fk, v[k], t) {
                assert(w.contains(v[k]));
            }
        }
    }
}

/// An index list `[i, j, ...]` gives, for each selected array in turn, its
/// elements at those subscripts (see `law_index_exact`), and nothing else.
pub proof fn law_unions_exact(c: Seq<RefModel>, ix: Seq<isize>)
    ensures
        forall|k: int| 0 <= k < unions(c, ix).len() ==> subscript_of_some(c, ix, #[trigger] unions(c, ix)[k]),
        forall|i: int, j: int, x: RefModel| 0 <= i < c.len() && 0 <= j < ix.len() && #[trigger] element_at(c[i], ix[j] as int).contains(x)
            ==> unions(c, ix).contains(x),
{
    let out = unions(c, ix);
    let g = union_fn(ix);
    lemma_flat_map_exact(c, g);
    assert forall|k: int| 0 <= k < out.len() implies subscript_of_some(c, ix, #[trigger] out[k]) by {
        assert(from_some(c, g, out[k]));
        let i = choose|i: int| 0 <= i < c.len() && #[trigger] g(c[i]).contains(out[k]);
        lemma_flat_map_exact(ix, subscript_fn(c[i]));
        let m = choose|m: int| 0 <= m < g(c[i]).len() && #[trigger] g(c[i])[m] == out[k];
        assert(from_some(ix, subscript_fn(c[i]), g(c[i])[m]));
        let j = choose|j: int| 0 <= j < ix.len() && #[trigger] subscript_fn(c[i])(ix[j]).contains(out[k]);
        assert(element_at(c[i], ix[j] as int).contains(out[k]));
    }
    assert forall|i: int, j: int, x: RefModel| 0 <= i < c.len() && 0 <= j < ix.len() && #[trigger] element_at(c[i], ix[j] as int).contains(x)
        implies out.contains(x) by {
        lemma_flat_map_exact(ix, subscript_fn(c[i]));
        assert(subscript_fn(c[i])(ix[j]).contains(x));
        assert(g(c[i]).contains(x));
    }
}

/// `x` is the element of some node of `c` at some subscript of `ix`.
pub open spec fn subscript_of_some(c: Seq<RefModel>, ix: Seq<isize>, x: RefModel) -> bool {
    exists|i: int, j: int| 0 <= i < c.len() && 0 <= j < ix.len() && #[trigger] element_at(c[i], ix[j] as int).contains(x)
}

/// What a walk collects at a node: its children; for a key, the node itself
/// when it is an object with a member of that name; or that member.
pub proof fn law_collect_at(r: RefModel, k: Seq<char>)
    ensures
        collect_at(WalkKind::Children, r) == r.children(),
        collect_at(WalkKind::ObjectsWithKey(k), r) == (if r.value() is Object && member_of(r, k).len() == 1 { seq![r] } else { Seq::<RefModel>::empty() }),
        collect_at(WalkKind::MemberValue(k), r) == member_of(r, k),
{
    if let JsonValue::Object(m) = r.value() {
        lemma_find_key_some(m@, k);
    }
}

/// A filter operator combines the two terms below it, the earlier one on
/// the left: `==` as `Eq`, `!=` as `Ne`, `>` as `Gt`, `>=` as `Ge`, `<` as
/// `Lt`, `<=` as `Le`, `&&` as `And`, `||` as `Or`.
pub proof fn law_filter_operator(s: SelectorModel, f: FilterToken, left: TermModel, right: TermModel)
    requires
        s.selectors.len() == 0,
        s.terms.len() >= 2,
        s.terms[s.terms.len() - 2] == Some(left),
        s.terms[s.terms.len() - 1] == Some(right),
    ensures
        step(s, TokenModel::Filter(f)) matches Ok(s2) && s2.current == s.current
            && s2.terms == s.terms.take(s.terms.len() - 2).push(Some(compare_terms(left, right, match f {
                FilterToken::Equal => FilterOp::Eq,
                FilterToken::NotEqual => FilterOp::Ne,
                FilterToken::Greater => FilterOp::Gt,
                FilterToken::GreaterOrEqual => FilterOp::Ge,
                FilterToken::Little => FilterOp::Lt,
                FilterToken::LittleOrEqual => FilterOp::Le,
                FilterToken::And => FilterOp::And,
                FilterToken::Or => FilterOp::Or,
            }))),
{
    assert(close_nested(s, TokenModel::Filter(f)) == Ok::<SelectorModel, Halt>(s));
    assert(s.terms.last() == Some(right));
    assert(s.terms.drop_last().last() == Some(left));
    assert(s.terms.drop_last().drop_last() =~= s.terms.take(s.terms.len() - 2));
}

// ---------------------------------------------------------------------------
// Numbers as subscripts

/// A number used as a subscript is truncated toward zero: for a finite
/// double below 2^31 in magnitude (so that it fits `isize` on every
/// target), with exponent field `e` and significand `m` (its value being
/// `m / 2^(1075 - e)`), the subscript's magnitude `q` is the largest with
/// `q * 2^(1075 - e) <= m`, and its sign is the double's sign; subnormal
/// numbers give 0.
pub proof fn law_number_subscript(bits: u64)
    ensures
        exponent_field(bits) == 0 ==> double_as_isize(bits) == 0,
        0 < exponent_field(bits) < 1054 ==> ({
            let m = 0x10_0000_0000_0000 + fraction_field(bits);
            let d = pow2((1075 - exponent_field(bits)) as nat) as int;
            let r = double_as_isize(bits);
            let q = if bits as int >= sign_bit() { -r } else { r };
            &&& q >= 0
            &&& q * d <= m < (q + 1) * d
            &&& (bits as int >= sign_bit() ==> r <= 0)
        }),
{
    let e = exponent_field(bits);
    if 0 < e < 1054 {
        let m = 0x10_0000_0000_0000 + fraction_field(bits);
        let k = (1075 - e) as nat;
        let d = pow2(k) as int;
        assert(fraction_field(bits) < 0x10_0000_0000_0000);
        vstd::arithmetic::power2::lemma_pow2_pos(k);
        vstd::arithmetic::power2::lemma_pow2_adds(22, (k - 22) as nat);
        vstd::arithmetic::power2::lemma_pow2_pos((k - 22) as nat);
        vstd::arithmetic::power2::lemma2_to64();
        assert(d >= 0x40_0000) by (nonlinear_arith)
            requires d == pow2(22) * pow2((k - 22) as nat), pow2(22) == 0x40_0000, pow2((k - 22) as nat) > 0;
        vstd::arithmetic::div_mod::lemma_fundamental_div_mod(m, d);
        vstd::arithmetic::div_mod::lemma_div_pos_is_pos(m, d);
        let q = m / d;
        assert(q * d <= m < (q + 1) * d) by (nonlinear_arith)
            requires m == d * q + m % d, 0 <= m % d < d, d > 0;
        assert(q < 0x8000_0000) by (nonlinear_arith)
            requires q * d <= m, m < 0x20_0000_0000_0000, d >= 0x40_0000, q >= 0;
    }
}

/// `x` is picked by the slice from some node of `c`.
pub open spec fn sliced_from_some(c: Seq<RefModel>, from: Option<isize>, to: Option<isize>, step: int, x: RefModel) -> bool {
    exists|i: int| 0 <= i < c.len() && #[trigger] slice_of(c[i], from, to, step).contains(x)
}

/// A slice gives, for each selected array in turn, the elements it picks
/// from it (see `law_slice_exact`), and nothing else.
pub proof fn law_slices_exact(c: Seq<RefModel>, from: Option<isize>, to: Option<isize>, step: int)
    ensures
        forall|k: int| 0 <= k < slices(c, from, to, step).len() ==> sliced_from_some(c, from, to, step, #[trigger] slices(c, from, to, step)[k]),
        forall|i: int, x: RefModel| 0 <= i < c.len() && #[trigger] slice_of(c[i], from, to, step).contains(x)
            ==> slices(c, from, to, step).contains(x),
{
    let g = slice_fn(from, to, step);
    lemma_flat_map_exact(c, g);
    assert forall|k: int| 0 <= k < slices(c, from, to, step).len() implies sliced_from_some(c, from, to, step, #[trigger] slices(c, from, to, step)[k]) by {
        assert(from_some(c, g, slices(c, from, to, step)[k]));
        let i = choose|i: int| 0 <= i < c.len() && #[trigger] g(c[i]).contains(slices(c, from, to, step)[k]);
        assert(slice_of(c[i], from, to, step).contains(slices(c, from, to, step)[k]));
    }
    assert forall|i: int, x: RefModel| 0 <= i < c.len() && #[trigger] slice_of(c[i], from, to, step).contains(x)
        implies slices(c, from, to, step).contains(x) by {
        assert(g(c[i]).contains(x));
    }
}

/// A slice or an index list in brackets, outside filters, moves the
/// selection to the elements they pick (a missing step being 1), and a
/// slice with step 0 applied to an array cannot be evaluated.
pub proof fn law_slice_and_union_steps(s: SelectorModel, c: Seq<RefModel>, from: Option<isize>, to: Option<isize>,
    st: Option<usize>, ix: Seq<isize>)
    requires
        s.selectors.len() == 0,
        s.current == Some(c),
        s.terms.len() == 0,
        top_is(s.tokens, Pending::Array),
    ensures
        st != Some(0usize) ==> (step(s, TokenModel::Range(from, to, st)) matches Ok(s2)
            && s2.current == Some(slices(c, from, to, match st { Some(x) => x as int, None => 1 }))
            && s2.tokens == s.tokens.drop_last()),
        st == Some(0usize) && (exists|i: int| 0 <= i < c.len() && (#[trigger] c[i]).value() is Array)
            ==> step(s, TokenModel::Range(from, to, st)) == Err::<SelectorModel, Halt>(Halt::ZeroStep),
        step(s, TokenModel::Union(ix)) matches Ok(s2) && s2.current == Some(unions(c, ix)) && s2.tokens == s.tokens.drop_last(),
{
    assert(close_nested(s, TokenModel::Range(from, to, st)) == Ok::<SelectorModel, Halt>(s));
    assert(close_nested(s, TokenModel::Union(ix)) == Ok::<SelectorModel, Halt>(s));
}

// ---------------------------------------------------------------------------
// Keys inside filters

/// Position `q` of `v` is reached through arrays only: every node on the way
/// to it (from `v` on, the node itself aside) is an array.
pub open spec fn through_arrays(v: JsonValue, q: Seq<usize>) -> bool {
    forall|k: int| 0 <= k < q.len() ==> (#[trigger] resolve(v, q.take(k))) matches Some(JsonValue::Array(_))
}

/// `x` is an object with a member named `key`, at a position of `v` (at
/// `p`) reached through arrays only.
pub open spec fn keyed_object_below(key: Seq<char>, p: Seq<usize>, v: JsonValue, x: RefModel) -> bool {
    exists|q: Seq<usize>| #[trigger] resolve(v, q) is Some && through_arrays(v, q)
        && resolve(v, q)->Some_0 is Object && member_of(RefModel::Node(p + q, resolve(v, q)->Some_0), key).len() == 1
        && x == RefModel::Node(p + q, resolve(v, q)->Some_0)
}

proof fn lemma_through_arrays_step(v: JsonValue, i: int, q1: Seq<usize>)
    requires
        v is Array,
        0 <= i < v.kid_count(),
        (i as usize) as int == i,
    ensures
        through_arrays(v, seq![i as usize] + q1) == through_arrays(v.kid(i), q1),
{
    let q = seq![i as usize] + q1;
    if through_arrays(v.kid(i), q1) {
        assert forall|k: int| 0 <= k < q.len() implies (#[trigger] resolve(v, q.take(k))) matches Some(JsonValue::Array(_)) by {
            if k == 0 {
                assert(q.take(0) =~= Seq::<usize>::empty());
            } else {
                assert(q.take(k).drop_first() =~= q1.take(k - 1));
                assert(q.take(k)[0] == i as usize);
                assert(resolve(v, q.take(k)) == resolve(v.kid(i), q1.take(k - 1)));
            }
        }
    }
    if through_arrays(v, q) {
        assert forall|k: int| 0 <= k < q1.len() implies (#[trigger] resolve(v.kid(i), q1.take(k))) matches Some(JsonValue::Array(_)) by {
            assert(q.take(k + 1).drop_first() =~= q1.take(k));
            assert(q.take(k + 1)[0] == i as usize);
            assert(resolve(v, q.take(k + 1)) == resolve(v.kid(i), q1.take(k)));
        }
    }
}

/// The search for objects with a member named `key` finds, below a node,
/// exactly the objects with that member reached through arrays only.
pub proof fn lemma_objects_with_key_exact(key: Seq<char>, p: Seq<usize>, v: JsonValue)
    ensures
        forall|k: int| 0 <= k < objects_with_key(key, p, v).len() ==> keyed_object_below(key, p, v, #[trigger] objects_with_key(key, p, v)[k]),
        forall|x: RefModel| #[trigger] keyed_object_below(key, p, v, x) ==> objects_with_key(key, p, v).contains(x),
    decreases v,
{
    let out = objects_with_key(key, p, v);
    let e = Seq::<usize>::empty();
    assert(p + e =~= p);
    assert(resolve(v, e) == Some(v));
    assert(through_arrays(v, e));
    match v {
        JsonValue::Object(m) => {
            lemma_find_key_some(m@, key);
            law_member_exact(RefModel::Node(p, v), key);
            assert forall|k: int| 0 <= k < out.len() implies keyed_object_below(key, p, v, #[trigger] out[k]) by {
                assert(out[k] == RefModel::Node(p + e, v));
            }
            assert forall|x: RefModel| #[trigger] keyed_object_below(key, p, v, x) implies out.contains(x) by {
                let q = choose|q: Seq<usize>| #[trigger] resolve(v, q) is Some && through_arrays(v, q)
                    && resolve(v, q)->Some_0 is Object && member_of(RefModel::Node(p + q, resolve(v, q)->Some_0), key).len() == 1
                    && x == RefModel::Node(p + q, resolve(v, q)->Some_0);
                if q.len() > 0 {
                    assert(q.take(0) =~= e);
                    assert(resolve(v, q.take(0)) == Some(v));
                }
                assert(q =~= e);
                assert(out[0] == x);
            }
        },
        JsonValue::Array(a) => {
            let kids = objects_with_key_kids(key, p, v);
            assert forall|i: int| 0 <= i < kids.len() implies #[trigger] kids[i] == objects_with_key(key, p.push(i as usize), a@[i])
                && (forall|k: int| 0 <= k < kids[i].len() ==> keyed_object_below(key, p, v, #[trigger] kids[i][k]))
                && (forall|x: RefModel| #[trigger] keyed_object_below(key, p.push(i as usize), a@[i], x) ==> kids[i].contains(x)) by {
                lemma_kid_index(v, i);
                let cp = p.push(i as usize);
                assert(decreases_to!(v => a@[i]));
                lemma_objects_with_key_exact(key, cp, a@[i]);
                let ci = objects_with_key(key, cp, a@[i]);
                assert(kids[i] == ci);
                assert forall|k: int| 0 <= k < kids[i].len() implies keyed_object_below(key, p, v, #[trigger] kids[i][k]) by {
                    assert(keyed_object_below(key, cp, a@[i], ci[k]));
                    let q1 = choose|q1: Seq<usize>| #[trigger] resolve(a@[i], q1) is Some && through_arrays(a@[i], q1)
                        && resolve(a@[i], q1)->Some_0 is Object && member_of(RefModel::Node(cp + q1, resolve(a@[i], q1)->Some_0), key).len() == 1
                        && kids[i][k] == RefModel::Node(cp + q1, resolve(a@[i], q1)->Some_0);
                    let q = seq![i as usize] + q1;
                    assert(q.drop_first() =~= q1);
                    assert(q[0] == i as usize);
                    assert(v.kid(i) == a@[i]);
                    assert(resolve(v, q) == resolve(a@[i], q1));
                    lemma_through_arrays_step(v, i, q1);
                    assert(p + q =~= cp + q1);
                }
            }
            assert forall|k: int| 0 <= k < out.len() implies keyed_object_below(key, p, v, #[trigger] out[k]) by {
                crate::deletion::lemma_flatten_member(kids, k);
                let (i, j) = choose|i: int, j: int| 0 <= i < kids.len() && 0 <= j < kids[i].len() && kids.flatten()[k] == #[trigger] kids[i][j];
            }
            assert forall|x: RefModel| #[trigger] keyed_object_below(key, p, v, x) implies out.contains(x) by {
                let q = choose|q: Seq<usize>| #[trigger] resolve(v, q) is Some && through_arrays(v, q)
                    && resolve(v, q)->Some_0 is Object && member_of(RefModel::Node(p + q, resolve(v, q)->Some_0), key).len() == 1
                    && x == RefModel::Node(p + q, resolve(v, q)->Some_0);
                if q.len() == 0 {
                    assert(q =~= e);
                } else {
                    let i = q[0] as int;
                    let q1 = q.drop_first();
                    lemma_kid_index(v, i);
                    assert(q =~= seq![i as usize] + q1);
                    assert(v.kid(i) == a@[i]);
                    assert(resolve(v, q) == resolve(a@[i], q1));
                    lemma_through_arrays_step(v, i, q1);
                    assert(p + q =~= p.push(i as usize) + q1);
                    assert(keyed_object_below(key, p.push(i as usize), a@[i], x));
                    assert(kids[i].contains(x));
                    crate::deletion::lemma_flatten_contains(kids, i, x);
                }
            }
        },
        _ => {
            assert forall|x: RefModel| #[trigger] keyed_object_below(key, p, v, x) implies out.contains(x) by {
                let q = choose|q: Seq<usize>| #[trigger] resolve(v, q) is Some && through_arrays(v, q)
                    && resolve(v, q)->Some_0 is Object && member_of(RefModel::Node(p + q, resolve(v, q)->Some_0), key).len() == 1
                    && x == RefModel::Node(p + q, resolve(v, q)->Some_0);
                if q.len() > 0 {
                    assert(q.take(0) =~= e);
                } else {
                    assert(q =~= e);
                }
            }
        },
    }
}

/// `x` is an object with a member named `key` reached through arrays only
/// from some node of `c`.
pub open spec fn keyed_object_from_some(key: Seq<char>, c: Seq<RefModel>, x: RefModel) -> bool {
    exists|i: int| 0 <= i < c.len() && (#[trigger] c[i] matches RefModel::Node(p, v)) && keyed_object_below(key, c[i]->Node_0, c[i]->Node_1, x)
}

proof fn lemma_dedup_covers(s: Seq<RefModel>, i: int)
    requires
        0 <= i < s.len(),
    ensures
        exists|k: int| 0 <= k < dedup(s).len() && (#[trigger] dedup(s)[k]).same_node(s[i]),
    decreases s.len(),
{
    let init = s.drop_last();
    let u0 = dedup(init);
    let u = dedup(s);
    assert(forall|k: int| 0 <= k < u0.len() ==> #[trigger] u0[k] == u[k]);
    if i < s.len() - 1 {
        assert(init[i] == s[i]);
        lemma_dedup_covers(init, i);
        let k = choose|k: int| 0 <= k < u0.len() && (#[trigger] u0[k]).same_node(init[i]);
        assert(u[k].same_node(s[i]));
    } else if exists|j: int| 0 <= j < s.len() - 1 && (#[trigger] s[j]).same_node(s.last()) {
        let j = choose|j: int| 0 <= j < s.len() - 1 && (#[trigger] s[j]).same_node(s.last());
        assert(init[j] == s[j]);
        lemma_dedup_covers(init, j);
        let k = choose|k: int| 0 <= k < u0.len() && (#[trigger] u0[k]).same_node(init[j]);
        assert(u[k].same_node(s[i]));
    } else {
        assert(u[u.len() - 1] == s[i]);
        assert(u[u.len() - 1].same_node(s[i]));
    }
}

/// A key after `.` inside a filter reaches the objects with a member of that
/// name found in the nodes or, through arrays only, under them: each such
/// object (or one at the same position) once, and nothing else.
pub proof fn law_filter_key_nodes(key: Seq<char>, c: Seq<RefModel>)
    ensures
        forall|k: int| 0 <= k < objects_with_key_in(key, c).len()
            ==> keyed_object_from_some(key, c, #[trigger] objects_with_key_in(key, c)[k]),
        forall|i: int, x: RefModel| 0 <= i < c.len() && (#[trigger] c[i] matches RefModel::Node(p, v))
            && #[trigger] keyed_object_below(key, c[i]->Node_0, c[i]->Node_1, x)
            ==> exists|k: int| 0 <= k < objects_with_key_in(key, c).len() && (#[trigger] objects_with_key_in(key, c)[k]).same_node(x),
{
    let g = owk_fn(key);
    let all = c.flat_map(g);
    let out = objects_with_key_in(key, c);
    lemma_flat_map_exact(c, g);
    lemma_dedup_subset(all);
    assert forall|i: int| #![trigger c[i]] 0 <= i < c.len() implies (c[i] matches RefModel::Node(p, v) ==> (
        (forall|k: int| 0 <= k < g(c[i]).len() ==> keyed_object_below(key, p, v, #[trigger] g(c[i])[k]))
        && (forall|x: RefModel| #[trigger] keyed_object_below(key, p, v, x) ==> g(c[i]).contains(x)))) && (c[i] is Null ==> g(c[i]).len() == 0) by {
        if let RefModel::Node(p, v) = c[i] {
            lemma_objects_with_key_exact(key, p, v);
        }
    }
    assert forall|k: int| 0 <= k < out.len() implies keyed_object_from_some(key, c, #[trigger] out[k]) by {
        assert(all.contains(out[k]));
        let j = choose|j: int| 0 <= j < all.len() && all[j] == out[k];
        assert(from_some(c, g, all[j]));
        let i = choose|i: int| 0 <= i < c.len() && #[trigger] g(c[i]).contains(all[j]);
        let m = choose|m: int| 0 <= m < g(c[i]).len() && #[trigger] g(c[i])[m] == all[j];
    }
    assert forall|i: int, x: RefModel| 0 <= i < c.len() && (#[trigger] c[i] matches RefModel::Node(p, v))
        && #[trigger] keyed_object_below(key, c[i]->Node_0, c[i]->Node_1, x)
        implies exists|k: int| 0 <= k < out.len() && (#[trigger] out[k]).same_node(x) by {
        assert(g(c[i]).contains(x));
        assert(all.contains(x));
        let j = choose|j: int| 0 <= j < all.len() && all[j] == x;
        lemma_dedup_covers(all, j);
    }
}

/// A key inside a filter replaces the filter's operand (the nodes of the
/// term on top, or, for an operand just opened with `@`, the selection) by
/// the nodes it reaches: after `..`, every object at or under them with a
/// member of that name; after `.`, the objects found by
/// `law_filter_key_nodes`.
pub proof fn law_key_in_filter(s: SelectorModel, k: Seq<char>, src: Seq<RefModel>)
    requires
        s.selectors.len() == 0,
        s.terms.len() > 0,
        top_is(s.tokens, Pending::In) || top_is(s.tokens, Pending::Leaves),
        s.terms.last() matches Some(TermModel::Json(_, v)) ==> src == v,
        s.terms.last() is None ==> s.current == Some(src),
        s.terms.last() matches Some(t) ==> t is Json,
    ensures
        step(s, TokenModel::Key(k)) matches Ok(s2) && s2.current == s.current && s2.tokens == s.tokens.drop_last()
            && s2.terms == s.terms.drop_last().push(Some(if top_is(s.tokens, Pending::Leaves) {
                TermModel::Json(Some(KeyModel::All), walk(WalkKind::ObjectsWithKey(k), src))
            } else {
                TermModel::Json(Some(KeyModel::String(k)), objects_with_key_in(k, src))
            })),
{
    assert(close_nested(s, TokenModel::Key(k)) == Ok::<SelectorModel, Halt>(s));
}

} // verus!
