//! What replacing the selected nodes does to a document, when no selected
//! node lies inside another.
use vstd::prelude::*;
use crate::json::{JsonValue, resolve};
use crate::refs::{RefModel, lemma_find_key};
use crate::selector_mut::{is_target, found_paths, locate, Located, replaced_at, replaced, replacement_chain,
    replaced_all, replacement_halts, node_at};
use crate::deletion::{unique_keys, key_path, lemma_decimal_parses, lemma_key_path_len, lemma_key_path_injective,
    path_of_target, lemma_found_paths_sound, lemma_found_paths_distinct, extends,
    blocked, selected_positions, covered, lemma_blocked_step, lemma_other_child, lemma_chain_prefix};

verus! {

/// Deep equality of documents: the same kinds, scalars, keys and elements.
pub open spec fn same_doc(a: JsonValue, b: JsonValue) -> bool
    decreases a,
{
    match a {
        JsonValue::Array(x) => match b {
            JsonValue::Array(y) => x@.len() == y@.len() && forall|i: int| 0 <= i < x@.len() ==> same_doc(x@[i], #[trigger] y@[i]),
            _ => false,
        },
        JsonValue::Object(x) => match b {
            JsonValue::Object(y) => x@.len() == y@.len() && forall|i: int| 0 <= i < x@.len()
                ==> (#[trigger] y@[i]).0 == x@[i].0 && same_doc(x@[i].1, y@[i].1),
            _ => false,
        },
        _ => b == a,
    }
}

/// `w` is `v`, the node at position `base` of a document, with each node at
/// a position in `ts` (the document's root aside) replaced by a result of
/// `f` on it, all else (object keys included) the same.
pub open spec fn mapped_at<F: Fn(&JsonValue) -> JsonValue>(v: JsonValue, w: JsonValue, base: Seq<usize>, ts: Set<Seq<usize>>, f: F) -> bool
    decreases v,
{
    if base.len() > 0 && ts.contains(base) {
        exists|x: JsonValue| #[trigger] same_doc(v, x) && f.ensures((&x,), w)
    } else {
        match v {
            JsonValue::Array(a) => match w {
                JsonValue::Array(b) => b@.len() == a@.len() && forall|i: int| 0 <= i < a@.len()
                    ==> mapped_at(a@[i], #[trigger] b@[i], base.push(i as usize), ts, f),
                _ => false,
            },
            JsonValue::Object(m) => match w {
                JsonValue::Object(n) => n@.len() == m@.len() && forall|i: int| 0 <= i < m@.len()
                    ==> (#[trigger] n@[i]).0 == m@[i].0 && mapped_at(m@[i].1, n@[i].1, base.push(i as usize), ts, f),
                _ => false,
            },
            _ => w == v,
        }
    }
}

/// No selected node lies inside another (the root aside).
pub open spec fn non_nested(ts: Set<Seq<usize>>) -> bool {
    forall|p: Seq<usize>, q: Seq<usize>| #[trigger] ts.contains(p) && #[trigger] ts.contains(q) && p.len() > 0 && p != q
        ==> !extends(q, p)
}

proof fn lemma_mapped_none<F: Fn(&JsonValue) -> JsonValue>(v: JsonValue, base: Seq<usize>, f: F)
    ensures
        mapped_at(v, v, base, Set::empty(), f),
    decreases v,
{
    match v {
        JsonValue::Array(a) => {
            assert forall|i: int| 0 <= i < a@.len() implies mapped_at(a@[i], #[trigger] a@[i], base.push(i as usize), Set::empty(), f) by {
                lemma_mapped_none(a@[i], base.push(i as usize), f);
            }
        },
        JsonValue::Object(m) => {
            assert forall|i: int| 0 <= i < m@.len() implies (#[trigger] m@[i]).0 == m@[i].0
                && mapped_at(m@[i].1, m@[i].1, base.push(i as usize), Set::empty(), f) by {
                assert(decreases_to!(v => m@[i].1)) by {
                    assert(decreases_to!(v => m@[i]));
                }
                lemma_mapped_none(m@[i].1, base.push(i as usize), f);
            }
        },
        _ => {},
    }
}

proof fn lemma_mapped_same_positions<F: Fn(&JsonValue) -> JsonValue>(v: JsonValue, w: JsonValue, base: Seq<usize>, ts1: Set<Seq<usize>>, ts2: Set<Seq<usize>>, f: F)
    requires
        mapped_at(v, w, base, ts1, f),
        forall|q: Seq<usize>| q.len() > 0 && extends(q, base) ==> (ts1.contains(q) <==> ts2.contains(q)),
    ensures
        mapped_at(v, w, base, ts2, f),
    decreases v,
{
    assert(extends(base, base)) by {
        assert(base.take(base.len() as int) =~= base);
    }
    if !(base.len() > 0 && ts1.contains(base)) {
        match (v, w) {
            (JsonValue::Array(a), JsonValue::Array(b)) => {
                assert forall|i: int| 0 <= i < a@.len() implies mapped_at(a@[i], #[trigger] b@[i], base.push(i as usize), ts2, f) by {
                    let c = base.push(i as usize);
                    assert forall|q: Seq<usize>| q.len() > 0 && extends(q, c) implies (ts1.contains(q) <==> ts2.contains(q)) by {
                        assert(q.take(base.len() as int) =~= c.take(base.len() as int));
                        assert(c.take(base.len() as int) =~= base);
                    }
                    lemma_mapped_same_positions(a@[i], b@[i], c, ts1, ts2, f);
                }
            },
            (JsonValue::Object(m), JsonValue::Object(n)) => {
                assert forall|i: int| 0 <= i < m@.len() implies (#[trigger] n@[i]).0 == m@[i].0
                    && mapped_at(m@[i].1, n@[i].1, base.push(i as usize), ts2, f) by {
                    let c = base.push(i as usize);
                    assert forall|q: Seq<usize>| q.len() > 0 && extends(q, c) implies (ts1.contains(q) <==> ts2.contains(q)) by {
                        assert(q.take(base.len() as int) =~= c.take(base.len() as int));
                        assert(c.take(base.len() as int) =~= base);
                    }
                    assert(decreases_to!(v => m@[i].1)) by {
                        assert(decreases_to!(v => m@[i]));
                    }
                    lemma_mapped_same_positions(m@[i].1, n@[i].1, c, ts1, ts2, f);
                }
            },
            _ => {},
        }
    }
}

/// Where no position under `base` is replaced, the node is unchanged.
proof fn lemma_mapped_unchanged<F: Fn(&JsonValue) -> JsonValue>(v: JsonValue, w: JsonValue, base: Seq<usize>, ts: Set<Seq<usize>>, f: F)
    requires
        mapped_at(v, w, base, ts, f),
        forall|q: Seq<usize>| q.len() > 0 && extends(q, base) ==> !ts.contains(q),
    ensures
        same_doc(v, w),
    decreases v,
{
    if base.len() > 0 {
        assert(extends(base, base)) by {
            assert(base.take(base.len() as int) =~= base);
        }
    }
    match (v, w) {
        (JsonValue::Array(a), JsonValue::Array(b)) => {
            assert forall|i: int| 0 <= i < a@.len() implies same_doc(a@[i], #[trigger] b@[i]) by {
                let c = base.push(i as usize);
                assert forall|q: Seq<usize>| q.len() > 0 && extends(q, c) implies !ts.contains(q) by {
                    assert(q.take(base.len() as int) =~= c.take(base.len() as int));
                    assert(c.take(base.len() as int) =~= base);
                }
                lemma_mapped_unchanged(a@[i], b@[i], c, ts, f);
            }
        },
        (JsonValue::Object(m), JsonValue::Object(n)) => {
            assert forall|i: int| 0 <= i < m@.len() implies (#[trigger] n@[i]).0 == m@[i].0 && same_doc(m@[i].1, n@[i].1) by {
                let c = base.push(i as usize);
                assert forall|q: Seq<usize>| q.len() > 0 && extends(q, c) implies !ts.contains(q) by {
                    assert(q.take(base.len() as int) =~= c.take(base.len() as int));
                    assert(c.take(base.len() as int) =~= base);
                }
                assert(decreases_to!(v => m@[i].1)) by {
                    assert(decreases_to!(v => m@[i]));
                }
                lemma_mapped_unchanged(m@[i].1, n@[i].1, c, ts, f);
            }
        },
        _ => {},
    }
}

/// The key path of a node that no replaced node lies above leads to it.
proof fn lemma_locate_mapped<F: Fn(&JsonValue) -> JsonValue>(v: JsonValue, w: JsonValue, base: Seq<usize>, ts: Set<Seq<usize>>, t: Seq<usize>, f: F)
    requires
        mapped_at(v, w, base, ts, f),
        !(base.len() > 0 && ts.contains(base)),
        unique_keys(v),
        resolve(v, t) is Some,
        t.len() > 0,
        !blocked(base, t, ts),
    ensures
        locate(w, key_path(v, t)) == Located::Found(t),
    decreases t.len(),
{
    let iu = t[0];
    let i = iu as int;
    let t1 = t.drop_first();
    let c = base.push(iu);
    let kp = key_path(v, t);
    lemma_key_path_len(v, t);
    assert(t =~= seq![iu] + t1);
    if t1.len() > 0 {
        assert(base + t.take(1) =~= c);
        assert(!ts.contains(c));
        lemma_blocked_step(base, t, ts);
    }
    match (v, w) {
        (JsonValue::Array(a), JsonValue::Array(b)) => {
            lemma_decimal_parses(i as nat);
            assert(kp[0] == crate::text::decimal(i as nat));
            assert(kp.drop_first() =~= key_path(a@[i], t1));
            if t1.len() > 0 {
                lemma_locate_mapped(a@[i], b@[i], c, ts, t1, f);
            }
        },
        (JsonValue::Object(m), JsonValue::Object(n)) => {
            let key = m@[i].0@;
            assert(n@[i].0 == m@[i].0);
            assert forall|j: int| 0 <= j < i implies #[trigger] n@[j].0@ != key by {
                assert(n@[j].0 == m@[j].0);
                assert(m@[j].0@ != m@[i].0@);
            }
            lemma_find_key(n@, key, i);
            assert(kp[0] == key);
            assert(kp.drop_first() =~= key_path(m@[i].1, t1));
            if t1.len() > 0 {
                lemma_locate_mapped(m@[i].1, n@[i].1, c, ts, t1, f);
            }
        },
        _ => {},
    }
}

/// Replacing the node at position `base + t`, where no node above it or
/// under it is replaced, by a result of `f` on it gives the document with
/// that position replaced as well.
proof fn lemma_replace_mapped<F: Fn(&JsonValue) -> JsonValue>(v: JsonValue, w: JsonValue, base: Seq<usize>, ts: Set<Seq<usize>>, t: Seq<usize>, y: JsonValue, w2: JsonValue, f: F)
    requires
        mapped_at(v, w, base, ts, f),
        !(base.len() > 0 && ts.contains(base)),
        resolve(v, t) is Some,
        t.len() > 0,
        !blocked(base, t, ts),
        forall|q: Seq<usize>| q.len() > 0 && extends(q, base + t) ==> !ts.contains(q),
        replaced_at(w, t, y, w2),
        f.ensures((&node_at(w, t),), y),
    ensures
        mapped_at(v, w2, base, ts.insert(base + t), f),
    decreases t.len(),
{
    let ts2 = ts.insert(base + t);
    let iu = t[0];
    let i = iu as int;
    let t1 = t.drop_first();
    let c = base.push(iu);
    assert((base + t).len() > base.len());
    assert(c + t1 =~= base + t);
    crate::laws::lemma_kid_index(v, i);
    if t1.len() > 0 {
        assert(base + t.take(1) =~= c);
        assert(!ts.contains(c));
        lemma_blocked_step(base, t, ts);
    }
    match (v, w, w2) {
        (JsonValue::Array(a), JsonValue::Array(b), JsonValue::Array(b2)) => {
            assert(resolve(w, t) == resolve(b@[i], t1));
            assert forall|j: int| 0 <= j < a@.len() implies mapped_at(a@[j], #[trigger] b2@[j], base.push(j as usize), ts2, f) by {
                crate::laws::lemma_kid_index(v, j);
                assert(mapped_at(a@[j], b@[j], base.push(j as usize), ts, f));
                if j != i {
                    assert(b2@[j] == b@[j]);
                    lemma_other_child(base, t, j, ts);
                    lemma_mapped_same_positions(a@[j], b@[j], base.push(j as usize), ts, ts2, f);
                } else if t1.len() == 0 {
                    assert(c =~= base + t);
                    assert(replaced_at(b@[i], t1, y, b2@[i]));
                    assert(b2@[i] == y);
                    assert(ts2.contains(c));
                    lemma_mapped_unchanged(a@[i], b@[i], c, ts, f);
                    assert(resolve(b@[i], t1) == Some(b@[i]));
                    assert(node_at(w, t) == b@[i]);
                    assert(same_doc(a@[i], b@[i]));
                } else {
                    assert(node_at(w, t) == node_at(b@[i], t1));
                    lemma_replace_mapped(a@[i], b@[i], c, ts, t1, y, b2@[i], f);
                }
            }
        },
        (JsonValue::Object(m), JsonValue::Object(n), JsonValue::Object(n2)) => {
            assert(resolve(w, t) == resolve(n@[i].1, t1));
            assert forall|j: int| 0 <= j < m@.len() implies (#[trigger] n2@[j]).0 == m@[j].0
                && mapped_at(m@[j].1, n2@[j].1, base.push(j as usize), ts2, f) by {
                crate::laws::lemma_kid_index(v, j);
                assert(n@[j].0 == m@[j].0);
                assert(mapped_at(m@[j].1, n@[j].1, base.push(j as usize), ts, f));
                if j != i {
                    assert(n2@[j] == n@[j]);
                    lemma_other_child(base, t, j, ts);
                    lemma_mapped_same_positions(m@[j].1, n@[j].1, base.push(j as usize), ts, ts2, f);
                } else if t1.len() == 0 {
                    assert(c =~= base + t);
                    assert(replaced_at(n@[i].1, t1, y, n2@[i].1));
                    assert(n2@[i].1 == y);
                    assert(ts2.contains(c));
                    lemma_mapped_unchanged(m@[i].1, n@[i].1, c, ts, f);
                    assert(resolve(n@[i].1, t1) == Some(n@[i].1));
                    assert(node_at(w, t) == n@[i].1);
                    assert(same_doc(m@[i].1, n@[i].1));
                } else {
                    assert(node_at(w, t) == node_at(n@[i].1, t1));
                    lemma_replace_mapped(m@[i].1, n@[i].1, c, ts, t1, y, n2@[i].1, f);
                }
            }
        },
        _ => {},
    }
}

proof fn lemma_covered_selected(d: JsonValue, res: Seq<RefModel>, k: int)
    requires
        unique_keys(d),
        0 <= k <= found_paths(res, d, seq![], seq![]).len(),
    ensures
        forall|q: Seq<usize>| #[trigger] covered(d, found_paths(res, d, seq![], seq![]), k).contains(q)
            ==> selected_positions(d, res).contains(q),
{
    let paths = found_paths(res, d, seq![], seq![]);
    let e = Seq::<usize>::empty();
    lemma_found_paths_sound(res, d, e, seq![]);
    assert forall|q: Seq<usize>| #[trigger] covered(d, paths, k).contains(q) implies selected_positions(d, res).contains(q) by {
        let j = choose|j: int| 0 <= j < k && paths[j] == #[trigger] key_path(d, q);
        assert(path_of_target(res, d, e, seq![], paths[j]));
        let t = choose|t: Seq<usize>| #[trigger] resolve(d, t) is Some && is_target(res, e + t)
            && paths[j] == seq![] + key_path(d, t);
        assert(seq![] + key_path(d, t) =~= key_path(d, t));
        assert(e + t =~= t);
        lemma_key_path_injective(d, q, t);
    }
}

/// Replacing, one after the other, the nodes that the first `k` collected
/// key paths lead to replaces exactly the nodes at those paths.
proof fn lemma_chain_mapped<F: Fn(&JsonValue) -> JsonValue>(d: JsonValue, res: Seq<RefModel>, f: F, vals: Seq<JsonValue>, k: int)
    requires
        unique_keys(d),
        non_nested(selected_positions(d, res)),
        0 <= k <= found_paths(res, d, seq![], seq![]).len(),
        replacement_chain(d, found_paths(res, d, seq![], seq![]).take(k), f, vals),
    ensures
        mapped_at(d, vals.last(), seq![], covered(d, found_paths(res, d, seq![], seq![]), k), f),
    decreases k,
{
    let paths = found_paths(res, d, seq![], seq![]);
    let e = Seq::<usize>::empty();
    let sel = selected_positions(d, res);
    if k == 0 {
        assert(covered(d, paths, 0) =~= Set::<Seq<usize>>::empty());
        lemma_mapped_none(d, e, f);
    } else {
        lemma_chain_prefix(d, paths, f, vals, k);
        lemma_chain_mapped(d, res, f, vals.drop_last(), k - 1);
        let mid = vals[k - 1];
        let next = vals[k];
        assert(vals.drop_last().last() == mid);
        let c0 = covered(d, paths, k - 1);
        lemma_covered_selected(d, res, k - 1);
        lemma_found_paths_sound(res, d, e, seq![]);
        lemma_found_paths_distinct(res, d, e, seq![]);
        assert(path_of_target(res, d, e, seq![], paths[k - 1]));
        let t = choose|t: Seq<usize>| #[trigger] resolve(d, t) is Some && is_target(res, e + t)
            && paths[k - 1] == seq![] + key_path(d, t);
        assert(seq![] + key_path(d, t) =~= key_path(d, t));
        assert(e + t =~= t);
        assert(sel.contains(t));
        assert(covered(d, paths, k) =~= c0.insert(t)) by {
            assert forall|q: Seq<usize>| covered(d, paths, k).contains(q) implies c0.insert(t).contains(q) by {
                let j = choose|j: int| 0 <= j < k && paths[j] == #[trigger] key_path(d, q);
                if j == k - 1 {
                    lemma_key_path_injective(d, q, t);
                }
            }
            assert(covered(d, paths, k).contains(t)) by {
                assert(paths[k - 1] == key_path(d, t));
            }
        }
        if t.len() == 0 {
            assert(key_path(d, t) =~= Seq::<Seq<char>>::empty());
            assert(next == mid);
            lemma_mapped_same_positions(d, mid, e, c0, c0.insert(t), f);
        } else {
            // no node collected before lies above or under the node at `t`
            assert(!c0.contains(t)) by {
                if c0.contains(t) {
                    let j = choose|j: int| 0 <= j < k - 1 && paths[j] == #[trigger] key_path(d, t);
                    assert(paths[j] == paths[k - 1]);
                }
            }
            assert(!blocked(e, t, c0)) by {
                if blocked(e, t, c0) {
                    let kk = choose|kk: int| 1 <= kk < t.len() && #[trigger] c0.contains(e + t.take(kk));
                    let p = t.take(kk);
                    assert(e + p =~= p);
                    assert(sel.contains(p));
                    assert(t.take(p.len() as int) =~= p);
                    assert(extends(t, p));
                    assert(p != t);
                }
            }
            assert forall|q: Seq<usize>| q.len() > 0 && extends(q, e + t) implies !c0.contains(q) by {
                if c0.contains(q) {
                    assert(sel.contains(q));
                    assert(q != t);
                }
            }
            lemma_locate_mapped(d, mid, e, c0, t, f);
            let y = choose|y: JsonValue| f.ensures((&node_at(mid, t),), y) && #[trigger] replaced_at(mid, t, y, next);
            lemma_replace_mapped(d, mid, e, c0, t, y, next, f);
        }
    }
}

/// In a document whose objects have unique keys, replacing the selected
/// nodes, when no selected node lies inside another, never comes upon an
/// array index past the end, and gives the document with each selected
/// node (the root aside) replaced by a result of `f` on it, everything else
/// as it was.
pub proof fn law_replace_non_nested<F: Fn(&JsonValue) -> JsonValue>(d: JsonValue, res: Seq<RefModel>, f: F, w: JsonValue)
    requires
        unique_keys(d),
        non_nested(selected_positions(d, res)),
    ensures
        !replacement_halts(d, found_paths(res, d, seq![], seq![]), f),
        replaced_all(d, found_paths(res, d, seq![], seq![]), f, w)
            ==> mapped_at(d, w, seq![], selected_positions(d, res), f),
{
    let paths = found_paths(res, d, seq![], seq![]);
    let e = Seq::<usize>::empty();
    if replaced_all(d, paths, f, w) {
        let vals = choose|vals: Seq<JsonValue>| #[trigger] replacement_chain(d, paths, f, vals) && vals.last() == w;
        assert(paths.take(paths.len() as int) =~= paths);
        lemma_chain_mapped(d, res, f, vals, paths.len() as int);
        crate::deletion::lemma_covered_all(d, res);
        lemma_mapped_same_positions(d, w, e, covered(d, paths, paths.len() as int), selected_positions(d, res), f);
    }
    if replacement_halts(d, paths, f) {
        let (k, mid) = choose|k: int, mid: JsonValue| 0 <= k < paths.len()
            && #[trigger] replaced_all(d, paths.take(k), f, mid) && locate(mid, paths[k]) is OutOfBounds;
        let vals = choose|vals: Seq<JsonValue>| #[trigger] replacement_chain(d, paths.take(k), f, vals) && vals.last() == mid;
        lemma_chain_mapped(d, res, f, vals, k);
        let c0 = covered(d, paths, k);
        let sel = selected_positions(d, res);
        lemma_covered_selected(d, res, k);
        lemma_found_paths_sound(res, d, e, seq![]);
        assert(path_of_target(res, d, e, seq![], paths[k]));
        let t = choose|t: Seq<usize>| #[trigger] resolve(d, t) is Some && is_target(res, e + t)
            && paths[k] == seq![] + key_path(d, t);
        assert(seq![] + key_path(d, t) =~= key_path(d, t));
        assert(e + t =~= t);
        assert(sel.contains(t));
        if t.len() == 0 {
            assert(key_path(d, t) =~= Seq::<Seq<char>>::empty());
        } else {
            assert(!blocked(e, t, c0)) by {
                if blocked(e, t, c0) {
                    let kk = choose|kk: int| 1 <= kk < t.len() && #[trigger] c0.contains(e + t.take(kk));
                    let p = t.take(kk);
                    assert(e + p =~= p);
                    assert(sel.contains(p));
                    assert(t.take(p.len() as int) =~= p);
                    assert(extends(t, p));
                    assert(p != t);
                }
            }
            lemma_locate_mapped(d, mid, e, c0, t, f);
        }
    }
}

} // verus!
