//! What deleting the selected nodes does to a document.
use vstd::prelude::*;
use crate::json::{JsonValue, resolve};
use crate::refs::{RefModel, lemma_find_key};
use crate::text::{decimal, digit_char, digits_value, all_digits, parse_usize_spec};
use crate::selector_mut::{is_target, found_paths, found_kids, locate, Located, replaced_at, replaced,
    replacement_chain, replaced_all, replacement_halts, null_value, node_at};

verus! {

// ---------------------------------------------------------------------------
// Key paths

/// Every object in `v` lists each key at most once, as a serde_json map does.
pub open spec fn unique_keys(v: JsonValue) -> bool
    decreases v,
{
    match v {
        JsonValue::Array(a) => forall|i: int| 0 <= i < a@.len() ==> unique_keys(#[trigger] a@[i]),
        JsonValue::Object(m) => (forall|i: int, j: int| 0 <= i < j < m@.len()
                ==> (#[trigger] m@[i]).0@ != (#[trigger] m@[j]).0@)
            && forall|i: int| 0 <= i < m@.len() ==> unique_keys(#[trigger] m@[i].1),
        _ => true,
    }
}

/// The key path of the node at position `t` of `v`: array indices as
/// decimal numerals, object members by their keys.
pub open spec fn key_path(v: JsonValue, t: Seq<usize>) -> Seq<Seq<char>>
    decreases t.len(),
{
    if t.len() == 0 {
        seq![]
    } else {
        match v {
            JsonValue::Array(a) => seq![decimal(t[0] as nat)] + key_path(a@[t[0] as int], t.drop_first()),
            JsonValue::Object(m) => seq![m@[t[0] as int].0@] + key_path(m@[t[0] as int].1, t.drop_first()),
            _ => seq![],
        }
    }
}

proof fn lemma_digit_char(d: nat)
    requires
        d < 10,
    ensures
        '0' <= digit_char(d) <= '9',
        (digit_char(d) as u32) - ('0' as u32) == d,
{
}

/// The decimal numeral of `n` parses back to `n`.
pub proof fn lemma_decimal_parses(n: nat)
    requires
        n <= usize::MAX,
    ensures
        parse_usize_spec(decimal(n)) == Some(n as usize),
{
    lemma_decimal_digits(n);
    assert(decimal(n)[0] != '+');
}

proof fn lemma_decimal_digits(n: nat)
    ensures
        decimal(n).len() > 0,
        all_digits(decimal(n)),
        digits_value(decimal(n)) == n,
        '0' <= decimal(n)[0] <= '9',
    decreases n,
{
    if n < 10 {
        lemma_digit_char(n);
        let s = decimal(n);
        assert(s.drop_last() =~= Seq::<char>::empty());
        assert(s.last() == digit_char(n));
        assert(digits_value(s.drop_last()) == 0);
        assert(digits_value(s) == digits_value(s.drop_last()) * 10 + ((s.last() as u32) - ('0' as u32)));
    } else {
        lemma_decimal_digits((n / 10) as nat);
        lemma_digit_char((n % 10) as nat);
        let s = decimal(n);
        let h = decimal((n / 10) as nat);
        assert(s.drop_last() =~= h);
        assert(s.last() == digit_char((n % 10) as nat));
        assert(s[0] == h[0]);
        assert((n / 10) * 10 + n % 10 == n) by (nonlinear_arith);
        assert(digits_value(s) == digits_value(h) * 10 + ((s.last() as u32) - ('0' as u32)));
        assert forall|i: int| 0 <= i < s.len() implies '0' <= #[trigger] s[i] <= '9' by {
            if i < h.len() {
                assert(s[i] == h[i]);
            }
        }
    }
}

/// A key path has one key per step of the position.
pub proof fn lemma_key_path_len(v: JsonValue, t: Seq<usize>)
    requires
        resolve(v, t) is Some,
    ensures
        key_path(v, t).len() == t.len(),
    decreases t.len(),
{
    if t.len() > 0 {
        match v {
            JsonValue::Array(a) => lemma_key_path_len(a@[t[0] as int], t.drop_first()),
            JsonValue::Object(m) => lemma_key_path_len(m@[t[0] as int].1, t.drop_first()),
            _ => {},
        }
    }
}

/// In a document whose objects have unique keys, distinct positions have
/// distinct key paths.
pub proof fn lemma_key_path_injective(v: JsonValue, t1: Seq<usize>, t2: Seq<usize>)
    requires
        unique_keys(v),
        resolve(v, t1) is Some,
        resolve(v, t2) is Some,
        key_path(v, t1) == key_path(v, t2),
    ensures
        t1 == t2,
    decreases t1.len(),
{
    lemma_key_path_len(v, t1);
    lemma_key_path_len(v, t2);
    if t1.len() > 0 {
        let i = t1[0];
        let j = t2[0];
        let k1 = key_path(v, t1);
        let k2 = key_path(v, t2);
        assert(k1[0] == k2[0]);
        assert(k1.drop_first() == k2.drop_first());
        match v {
            JsonValue::Array(a) => {
                lemma_decimal_parses(i as nat);
                lemma_decimal_parses(j as nat);
                assert(i == j);
                assert(k1.drop_first() =~= key_path(a@[i as int], t1.drop_first()));
                assert(k2.drop_first() =~= key_path(a@[i as int], t2.drop_first()));
                lemma_key_path_injective(a@[i as int], t1.drop_first(), t2.drop_first());
            },
            JsonValue::Object(m) => {
                if i < j {
                    assert(m@[i as int].0@ != m@[j as int].0@);
                } else if j < i {
                    assert(m@[j as int].0@ != m@[i as int].0@);
                }
                assert(i == j);
                assert(k1.drop_first() =~= key_path(m@[i as int].1, t1.drop_first()));
                assert(k2.drop_first() =~= key_path(m@[i as int].1, t2.drop_first()));
                lemma_key_path_injective(m@[i as int].1, t1.drop_first(), t2.drop_first());
            },
            _ => {},
        }
        assert(t1 =~= seq![i] + t1.drop_first());
        assert(t2 =~= seq![j] + t2.drop_first());
    }
}

// ---------------------------------------------------------------------------
// The key paths of the selected nodes

/// `x` is `toks` followed by the key path of a selected node of `v`, which
/// sits at position `p`.
pub open spec fn path_of_target(res: Seq<RefModel>, v: JsonValue, p: Seq<usize>, toks: Seq<Seq<char>>, x: Seq<Seq<char>>) -> bool {
    exists|t: Seq<usize>| #[trigger] resolve(v, t) is Some && is_target(res, p + t) && x == toks + key_path(v, t)
}

pub proof fn lemma_flatten_contains<A>(ss: Seq<Seq<A>>, i: int, x: A)
    requires
        0 <= i < ss.len(),
        ss[i].contains(x),
    ensures
        ss.flatten().contains(x),
    decreases ss.len(),
{
    let init = ss.drop_last();
    assert(init.push(ss.last()) =~= ss);
    init.lemma_flatten_push(ss.last());
    if i == ss.len() - 1 {
        let j = choose|j: int| 0 <= j < ss[i].len() && ss[i][j] == x;
        assert(ss.flatten()[init.flatten().len() + j] == x);
    } else {
        assert(init[i] == ss[i]);
        lemma_flatten_contains(init, i, x);
        let j = choose|j: int| 0 <= j < init.flatten().len() && init.flatten()[j] == x;
        assert(ss.flatten()[j] == x);
    }
}

pub proof fn lemma_flatten_member<A>(ss: Seq<Seq<A>>, k: int)
    requires
        0 <= k < ss.flatten().len(),
    ensures
        exists|i: int, j: int| 0 <= i < ss.len() && 0 <= j < ss[i].len() && ss.flatten()[k] == #[trigger] ss[i][j],
    decreases ss.len(),
{
    let init = ss.drop_last();
    assert(init.push(ss.last()) =~= ss);
    init.lemma_flatten_push(ss.last());
    if k < init.flatten().len() {
        lemma_flatten_member(init, k);
        let (i, j) = choose|i: int, j: int| 0 <= i < init.len() && 0 <= j < init[i].len() && init.flatten()[k] == #[trigger] init[i][j];
        assert(init[i] == ss[i]);
        assert(ss.flatten()[k] == ss[i][j]);
    } else {
        let j = k - init.flatten().len();
        assert(ss.flatten()[k] == ss[ss.len() - 1][j]);
    }
}

/// Every key path that the selector collects is that of a selected node.
pub proof fn lemma_found_paths_sound(res: Seq<RefModel>, v: JsonValue, p: Seq<usize>, toks: Seq<Seq<char>>)
    ensures
        forall|k: int| 0 <= k < found_paths(res, v, p, toks).len()
            ==> path_of_target(res, v, p, toks, #[trigger] found_paths(res, v, p, toks)[k]),
    decreases v,
{
    let fp = found_paths(res, v, p, toks);
    let head = if is_target(res, p) { seq![toks] } else { seq![] };
    let kids = found_kids(res, v, p, toks);
    assert forall|k: int| 0 <= k < fp.len() implies path_of_target(res, v, p, toks, #[trigger] fp[k]) by {
        if k < head.len() {
            let t = Seq::<usize>::empty();
            assert(p + t =~= p);
            assert(toks + key_path(v, t) =~= toks);
            assert(resolve(v, t) is Some);
        } else {
            lemma_flatten_member(kids, k - head.len());
            let (i, j) = choose|i: int, j: int| 0 <= i < kids.len() && 0 <= j < kids[i].len()
                && kids.flatten()[k - head.len()] == #[trigger] kids[i][j];
            assert(fp[k] == kids[i][j]);
            crate::laws::lemma_kid_index(v, i);
            let iu = i as usize;
            let (c, key) = match v {
                JsonValue::Array(a) => (a@[i], decimal(i as nat)),
                JsonValue::Object(m) => (m@[i].1, m@[i].0@),
                _ => (v, seq![]),
            };
            assert(kids[i] == found_paths(res, c, p.push(iu), toks.push(key)));
            assert(decreases_to!(v => c)) by {
                match v {
                    JsonValue::Array(a) => assert(decreases_to!(v => a@[i])),
                    JsonValue::Object(m) => assert(decreases_to!(v => m@[i].1)),
                    _ => {},
                }
            }
            lemma_found_paths_sound(res, c, p.push(iu), toks.push(key));
            assert(path_of_target(res, c, p.push(iu), toks.push(key), kids[i][j]));
            let t1 = choose|t1: Seq<usize>| #[trigger] resolve(c, t1) is Some && is_target(res, p.push(iu) + t1)
                && kids[i][j] == toks.push(key) + key_path(c, t1);
            let t = seq![iu] + t1;
            assert(t.drop_first() =~= t1);
            assert(t[0] == iu);
            assert(v.kid(i) == c);
            assert(resolve(v, t) == resolve(c, t1));
            assert(p + t =~= p.push(iu) + t1);
            assert(key_path(v, t) == seq![key] + key_path(c, t1));
            assert(toks + key_path(v, t) =~= toks.push(key) + key_path(c, t1));
        }
    }
}

/// The key path of every selected node is among those the selector collects.
pub proof fn lemma_found_paths_complete(res: Seq<RefModel>, v: JsonValue, p: Seq<usize>, toks: Seq<Seq<char>>, t: Seq<usize>)
    requires
        resolve(v, t) is Some,
        is_target(res, p + t),
    ensures
        found_paths(res, v, p, toks).contains(toks + key_path(v, t)),
    decreases t.len(),
{
    let fp = found_paths(res, v, p, toks);
    let head = if is_target(res, p) { seq![toks] } else { seq![] };
    let kids = found_kids(res, v, p, toks);
    if t.len() == 0 {
        assert(p + t =~= p);
        assert(toks + key_path(v, t) =~= toks);
        assert(fp[0] == toks);
    } else {
        let i = t[0] as int;
        let iu = t[0];
        assert(i < v.kid_count());
        let (c, key) = match v {
            JsonValue::Array(a) => (a@[i], decimal(i as nat)),
            JsonValue::Object(m) => (m@[i].1, m@[i].0@),
            _ => (v, seq![]),
        };
        let t1 = t.drop_first();
        assert(p.push(iu) + t1 =~= p + t);
        assert(v.kid(i) == c);
        lemma_found_paths_complete(res, c, p.push(iu), toks.push(key), t1);
        assert(kids[i] == found_paths(res, c, p.push(iu), toks.push(key)));
        assert(toks + key_path(v, t) =~= toks.push(key) + key_path(c, t1));
        lemma_flatten_contains(kids, i, toks + key_path(v, t));
        let j = choose|j: int| 0 <= j < kids.flatten().len() && kids.flatten()[j] == toks + key_path(v, t);
        assert(fp[head.len() + j] == kids.flatten()[j]);
    }
}

// ---------------------------------------------------------------------------
// Documents with nodes replaced by null

/// `w` is `v`, the node at position `base` of a document, with each node at
/// a position in `ts` (the document's root aside) replaced by `null`, all
/// else (object keys included) the same.
pub open spec fn nulled_at(v: JsonValue, w: JsonValue, base: Seq<usize>, ts: Set<Seq<usize>>) -> bool
    decreases v,
{
    if base.len() > 0 && ts.contains(base) {
        w is Null
    } else {
        match v {
            JsonValue::Array(a) => match w {
                JsonValue::Array(b) => b@.len() == a@.len() && forall|i: int| 0 <= i < a@.len()
                    ==> nulled_at(a@[i], #[trigger] b@[i], base.push(i as usize), ts),
                _ => false,
            },
            JsonValue::Object(m) => match w {
                JsonValue::Object(n) => n@.len() == m@.len() && forall|i: int| 0 <= i < m@.len()
                    ==> (#[trigger] n@[i]).0 == m@[i].0 && nulled_at(m@[i].1, n@[i].1, base.push(i as usize), ts),
                _ => false,
            },
            _ => w == v,
        }
    }
}

/// `q` is `base` or a position under it.
pub open spec fn extends(q: Seq<usize>, base: Seq<usize>) -> bool {
    base.len() <= q.len() && q.take(base.len() as int) == base
}

/// Nothing replaced: the document is itself.
pub proof fn lemma_nulled_none(v: JsonValue, base: Seq<usize>)
    ensures
        nulled_at(v, v, base, Set::empty()),
    decreases v,
{
    match v {
        JsonValue::Array(a) => {
            assert forall|i: int| 0 <= i < a@.len() implies nulled_at(a@[i], #[trigger] a@[i], base.push(i as usize), Set::empty()) by {
                lemma_nulled_none(a@[i], base.push(i as usize));
            }
        },
        JsonValue::Object(m) => {
            assert forall|i: int| 0 <= i < m@.len() implies (#[trigger] m@[i]).0 == m@[i].0
                && nulled_at(m@[i].1, m@[i].1, base.push(i as usize), Set::empty()) by {
                assert(decreases_to!(v => m@[i].1)) by {
                    assert(decreases_to!(v => m@[i]));
                }
                lemma_nulled_none(m@[i].1, base.push(i as usize));
            }
        },
        _ => {},
    }
}

/// Only the positions under `base`, the root aside, matter.
pub proof fn lemma_nulled_same_positions(v: JsonValue, w: JsonValue, base: Seq<usize>, ts1: Set<Seq<usize>>, ts2: Set<Seq<usize>>)
    requires
        nulled_at(v, w, base, ts1),
        forall|q: Seq<usize>| q.len() > 0 && extends(q, base) ==> (ts1.contains(q) <==> ts2.contains(q)),
    ensures
        nulled_at(v, w, base, ts2),
    decreases v,
{
    assert(extends(base, base)) by {
        assert(base.take(base.len() as int) =~= base);
    }
    if !(base.len() > 0 && ts1.contains(base)) {
        match (v, w) {
            (JsonValue::Array(a), JsonValue::Array(b)) => {
                assert forall|i: int| 0 <= i < a@.len() implies nulled_at(a@[i], #[trigger] b@[i], base.push(i as usize), ts2) by {
                    let c = base.push(i as usize);
                    assert forall|q: Seq<usize>| q.len() > 0 && extends(q, c) implies (ts1.contains(q) <==> ts2.contains(q)) by {
                        assert(q.take(base.len() as int) =~= c.take(base.len() as int));
                        assert(c.take(base.len() as int) =~= base);
                    }
                    lemma_nulled_same_positions(a@[i], b@[i], c, ts1, ts2);
                }
            },
            (JsonValue::Object(m), JsonValue::Object(n)) => {
                assert forall|i: int| 0 <= i < m@.len() implies (#[trigger] n@[i]).0 == m@[i].0
                    && nulled_at(m@[i].1, n@[i].1, base.push(i as usize), ts2) by {
                    let c = base.push(i as usize);
                    assert forall|q: Seq<usize>| q.len() > 0 && extends(q, c) implies (ts1.contains(q) <==> ts2.contains(q)) by {
                        assert(q.take(base.len() as int) =~= c.take(base.len() as int));
                        assert(c.take(base.len() as int) =~= base);
                    }
                    assert(decreases_to!(v => m@[i].1)) by {
                        assert(decreases_to!(v => m@[i]));
                    }
                    lemma_nulled_same_positions(m@[i].1, n@[i].1, c, ts1, ts2);
                }
            },
            _ => {},
        }
    }
}

/// Some node strictly between `base` and `base + t` (neither end) is at a
/// position in `ts`.
pub open spec fn blocked(base: Seq<usize>, t: Seq<usize>, ts: Set<Seq<usize>>) -> bool {
    exists|k: int| 1 <= k < t.len() && #[trigger] ts.contains(base + t.take(k))
}

pub proof fn lemma_blocked_step(base: Seq<usize>, t: Seq<usize>, ts: Set<Seq<usize>>)
    requires
        t.len() > 1,
        !ts.contains(base.push(t[0])),
    ensures
        blocked(base, t, ts) == blocked(base.push(t[0]), t.drop_first(), ts),
{
    let c = base.push(t[0]);
    let t1 = t.drop_first();
    if blocked(base, t, ts) {
        let k = choose|k: int| 1 <= k < t.len() && #[trigger] ts.contains(base + t.take(k));
        if k == 1 {
            assert(base + t.take(1) =~= c);
        }
        assert(base + t.take(k) =~= c + t1.take(k - 1));
        assert(ts.contains(c + t1.take(k - 1)));
    }
    if blocked(c, t1, ts) {
        let k = choose|k: int| 1 <= k < t1.len() && #[trigger] ts.contains(c + t1.take(k));
        assert(base + t.take(k + 1) =~= c + t1.take(k));
        assert(ts.contains(base + t.take(k + 1)));
    }
}

/// In a document with some nodes nulled, the key path of a node leads to
/// it, unless a node on the way was nulled.
pub proof fn lemma_locate_nulled(v: JsonValue, w: JsonValue, base: Seq<usize>, ts: Set<Seq<usize>>, t: Seq<usize>)
    requires
        nulled_at(v, w, base, ts),
        !(base.len() > 0 && ts.contains(base)),
        unique_keys(v),
        resolve(v, t) is Some,
        t.len() > 0,
    ensures
        locate(w, key_path(v, t)) == (if blocked(base, t, ts) { Located::NotFound } else { Located::Found(t) }),
    decreases t.len(),
{
    let iu = t[0];
    let i = iu as int;
    let t1 = t.drop_first();
    let c = base.push(iu);
    let kp = key_path(v, t);
    lemma_key_path_len(v, t);
    assert(t =~= seq![iu] + t1);
    if t1.len() == 0 {
        assert(!blocked(base, t, ts));
    }
    match (v, w) {
        (JsonValue::Array(a), JsonValue::Array(b)) => {
            lemma_decimal_parses(i as nat);
            assert(kp[0] == decimal(i as nat));
            assert(kp.drop_first() =~= key_path(a@[i], t1));
            if t1.len() > 0 {
                if ts.contains(c) {
                    assert(nulled_at(a@[i], b@[i], c, ts));
                    assert(b@[i] is Null);
                    assert(base + t.take(1) =~= c);
                    assert(blocked(base, t, ts));
                } else {
                    lemma_blocked_step(base, t, ts);
                    lemma_locate_nulled(a@[i], b@[i], c, ts, t1);
                }
            }
        },
        (JsonValue::Object(m), JsonValue::Object(n)) => {
            let key = m@[i].0@;
            assert(n@[i].0 == m@[i].0);
            assert forall|j: int| 0 <= j < i implies #[trigger] n@[j].0@ != key by {
                assert(n@[j].0 == m@[j].0);
                assert(m@[j].0@ != m@[i].0@);
            }
            lemma_find_key(n@, key, i);
            assert(kp[0] == key);
            assert(kp.drop_first() =~= key_path(m@[i].1, t1));
            if t1.len() > 0 {
                if ts.contains(c) {
                    assert(nulled_at(m@[i].1, n@[i].1, c, ts));
                    assert(base + t.take(1) =~= c);
                    assert(blocked(base, t, ts));
                } else {
                    lemma_blocked_step(base, t, ts);
                    lemma_locate_nulled(m@[i].1, n@[i].1, c, ts, t1);
                }
            }
        },
        _ => {},
    }
}

/// Positions under child `j` of `base` are not under child `i != j`.
pub proof fn lemma_other_child(base: Seq<usize>, t: Seq<usize>, j: int, ts: Set<Seq<usize>>)
    requires
        t.len() > 0,
        0 <= j,
        j as usize != t[0],
        (j as usize) as int == j,
    ensures
        forall|q: Seq<usize>| q.len() > 0 && extends(q, base.push(j as usize))
            ==> (ts.contains(q) <==> ts.insert(base + t).contains(q)),
{
    let c = base.push(j as usize);
    assert forall|q: Seq<usize>| q.len() > 0 && extends(q, c) implies (ts.contains(q) <==> ts.insert(base + t).contains(q)) by {
        if q == base + t {
            assert(q[base.len() as int] == c[base.len() as int]);
            assert((base + t)[base.len() as int] == t[0]);
        }
    }
}

/// Nulling the node at position `base + t`, where no node on the way is
/// nulled, gives the document with that position nulled as well.
pub proof fn lemma_replace_nulled(v: JsonValue, w: JsonValue, base: Seq<usize>, ts: Set<Seq<usize>>, t: Seq<usize>, y: JsonValue, w2: JsonValue)
    requires
        nulled_at(v, w, base, ts),
        !(base.len() > 0 && ts.contains(base)),
        resolve(v, t) is Some,
        t.len() > 0,
        !blocked(base, t, ts),
        replaced_at(w, t, y, w2),
        y is Null,
    ensures
        nulled_at(v, w2, base, ts.insert(base + t)),
    decreases t.len(),
{
    let ts2 = ts.insert(base + t);
    let iu = t[0];
    let i = iu as int;
    let t1 = t.drop_first();
    let c = base.push(iu);
    assert((base + t).len() > base.len());
    assert(c + t1 =~= base + t);
    crate::laws::lemma_kid_index(v, i);
    if t1.len() > 0 {
        assert(base + t.take(1) =~= c);
        assert(!ts.contains(c));
        lemma_blocked_step(base, t, ts);
    }
    match (v, w, w2) {
        (JsonValue::Array(a), JsonValue::Array(b), JsonValue::Array(b2)) => {
            assert forall|j: int| 0 <= j < a@.len() implies nulled_at(a@[j], #[trigger] b2@[j], base.push(j as usize), ts2) by {
                crate::laws::lemma_kid_index(v, j);
                if j != i {
                    assert(b2@[j] == b@[j]);
                    assert(nulled_at(a@[j], b@[j], base.push(j as usize), ts));
                    lemma_other_child(base, t, j, ts);
                    lemma_nulled_same_positions(a@[j], b@[j], base.push(j as usize), ts, ts2);
                } else if t1.len() == 0 {
                    assert(c =~= base + t);
                    assert(replaced_at(b@[i], t1, y, b2@[i]));
                    assert(b2@[i] == y);
                    assert(ts2.contains(c));
                } else {
                    lemma_replace_nulled(a@[i], b@[i], c, ts, t1, y, b2@[i]);
                }
            }
        },
        (JsonValue::Object(m), JsonValue::Object(n), JsonValue::Object(n2)) => {
            assert forall|j: int| 0 <= j < m@.len() implies (#[trigger] n2@[j]).0 == m@[j].0
                && nulled_at(m@[j].1, n2@[j].1, base.push(j as usize), ts2) by {
                crate::laws::lemma_kid_index(v, j);
                assert(n@[j].0 == m@[j].0);
                if j != i {
                    assert(n2@[j] == n@[j]);
                    assert(nulled_at(m@[j].1, n@[j].1, base.push(j as usize), ts));
                    lemma_other_child(base, t, j, ts);
                    lemma_nulled_same_positions(m@[j].1, n@[j].1, base.push(j as usize), ts, ts2);
                } else if t1.len() == 0 {
                    assert(c =~= base + t);
                    assert(replaced_at(n@[i].1, t1, y, n2@[i].1));
                    assert(n2@[i].1 == y);
                    assert(ts2.contains(c));
                } else {
                    lemma_replace_nulled(m@[i].1, n@[i].1, c, ts, t1, y, n2@[i].1);
                }
            }
        },
        _ => {},
    }
}

/// A node under a nulled node is nulled already.
pub proof fn lemma_nulled_blocked(v: JsonValue, w: JsonValue, base: Seq<usize>, ts: Set<Seq<usize>>, t: Seq<usize>)
    requires
        nulled_at(v, w, base, ts),
        !(base.len() > 0 && ts.contains(base)),
        resolve(v, t) is Some,
        blocked(base, t, ts),
    ensures
        nulled_at(v, w, base, ts.insert(base + t)),
    decreases t.len(),
{
    let ts2 = ts.insert(base + t);
    let iu = t[0];
    let i = iu as int;
    let t1 = t.drop_first();
    let c = base.push(iu);
    assert((base + t).len() > base.len());
    assert(c + t1 =~= base + t);
    crate::laws::lemma_kid_index(v, i);
    if !ts.contains(c) {
        lemma_blocked_step(base, t, ts);
    }
    match (v, w) {
        (JsonValue::Array(a), JsonValue::Array(b)) => {
            assert forall|j: int| 0 <= j < a@.len() implies nulled_at(a@[j], #[trigger] b@[j], base.push(j as usize), ts2) by {
                crate::laws::lemma_kid_index(v, j);
                assert(nulled_at(a@[j], b@[j], base.push(j as usize), ts));
                if j != i {
                    lemma_other_child(base, t, j, ts);
                    lemma_nulled_same_positions(a@[j], b@[j], base.push(j as usize), ts, ts2);
                } else if !ts.contains(c) {
                    lemma_nulled_blocked(a@[i], b@[i], c, ts, t1);
                } else {
                    assert(ts2.contains(c));
                    assert(b@[i] is Null);
                }
            }
        },
        (JsonValue::Object(m), JsonValue::Object(n)) => {
            assert forall|j: int| 0 <= j < m@.len() implies (#[trigger] n@[j]).0 == m@[j].0
                && nulled_at(m@[j].1, n@[j].1, base.push(j as usize), ts2) by {
                crate::laws::lemma_kid_index(v, j);
                assert(nulled_at(m@[j].1, n@[j].1, base.push(j as usize), ts));
                if j != i {
                    lemma_other_child(base, t, j, ts);
                    lemma_nulled_same_positions(m@[j].1, n@[j].1, base.push(j as usize), ts, ts2);
                } else if !ts.contains(c) {
                    lemma_nulled_blocked(m@[i].1, n@[i].1, c, ts, t1);
                } else {
                    assert(ts2.contains(c));
                    assert(n@[i].1 is Null);
                }
            }
        },
        _ => {},
    }
}

// ---------------------------------------------------------------------------
// Deleting

/// Positions of the document's nodes that are among the selected nodes.
pub open spec fn selected_positions(d: JsonValue, res: Seq<RefModel>) -> Set<Seq<usize>> {
    Set::new(|q: Seq<usize>| resolve(d, q) is Some && is_target(res, q))
}

/// Positions of the document's nodes whose key paths are among the first
/// `k` of `paths`.
pub open spec fn covered(d: JsonValue, paths: Seq<Seq<Seq<char>>>, k: int) -> Set<Seq<usize>> {
    Set::new(|q: Seq<usize>| resolve(d, q) is Some && exists|j: int| 0 <= j < k && paths[j] == #[trigger] key_path(d, q))
}

pub proof fn lemma_chain_prefix<F: Fn(&JsonValue) -> JsonValue>(d: JsonValue, paths: Seq<Seq<Seq<char>>>, f: F, vals: Seq<JsonValue>, k: int)
    requires
        0 < k <= paths.len(),
        replacement_chain(d, paths.take(k), f, vals),
    ensures
        replacement_chain(d, paths.take(k - 1), f, vals.drop_last()),
        replaced(vals[k - 1], paths[k - 1], f, vals[k]),
{
    let ps = paths.take(k);
    let qs = paths.take(k - 1);
    let us = vals.drop_last();
    assert forall|j: int| #![trigger qs[j]] 0 <= j < qs.len() implies replaced(us[j], qs[j], f, us[j + 1]) by {
        assert(ps[j] == qs[j]);
        assert(us[j] == vals[j]);
        assert(us[j + 1] == vals[j + 1]);
    }
    assert(ps[k - 1] == paths[k - 1]);
}

/// Replacing by `null`, one after the other, the nodes that the first `k`
/// collected key paths lead to nulls exactly the nodes at those paths.
proof fn lemma_chain_nulled(d: JsonValue, res: Seq<RefModel>, vals: Seq<JsonValue>, k: int)
    requires
        unique_keys(d),
        0 <= k <= found_paths(res, d, seq![], seq![]).len(),
        replacement_chain(d, found_paths(res, d, seq![], seq![]).take(k), null_value, vals),
    ensures
        nulled_at(d, vals.last(), seq![], covered(d, found_paths(res, d, seq![], seq![]), k)),
    decreases k,
{
    let paths = found_paths(res, d, seq![], seq![]);
    let e = Seq::<usize>::empty();
    if k == 0 {
        assert(covered(d, paths, 0) =~= Set::<Seq<usize>>::empty());
        lemma_nulled_none(d, e);
    } else {
        lemma_chain_prefix(d, paths, null_value, vals, k);
        lemma_chain_nulled(d, res, vals.drop_last(), k - 1);
        let mid = vals[k - 1];
        let next = vals[k];
        assert(vals.drop_last().last() == mid);
        let c0 = covered(d, paths, k - 1);
        lemma_found_paths_sound(res, d, e, seq![]);
        assert(path_of_target(res, d, e, seq![], paths[k - 1]));
        let t = choose|t: Seq<usize>| #[trigger] resolve(d, t) is Some && is_target(res, e + t)
            && paths[k - 1] == seq![] + key_path(d, t);
        assert(seq![] + key_path(d, t) =~= key_path(d, t));
        assert(e + t =~= t);
        assert(covered(d, paths, k) =~= c0.insert(t)) by {
            assert forall|q: Seq<usize>| covered(d, paths, k).contains(q) implies c0.insert(t).contains(q) by {
                let j = choose|j: int| 0 <= j < k && paths[j] == #[trigger] key_path(d, q);
                if j == k - 1 {
                    lemma_key_path_injective(d, q, t);
                }
            }
            assert(covered(d, paths, k).contains(t)) by {
                assert(paths[k - 1] == key_path(d, t));
            }
        }
        if t.len() == 0 {
            assert(key_path(d, t) =~= Seq::<Seq<char>>::empty());
            assert(next == mid);
            lemma_nulled_same_positions(d, mid, e, c0, c0.insert(t));
        } else {
            lemma_locate_nulled(d, mid, e, c0, t);
            if blocked(e, t, c0) {
                assert(next == mid);
                lemma_nulled_blocked(d, mid, e, c0, t);
            } else {
                let y = choose|y: JsonValue| null_value.ensures((&node_at(mid, t),), y) && #[trigger] replaced_at(mid, t, y, next);
                assert(y is Null);
                lemma_replace_nulled(d, mid, e, c0, t, y, next);
            }
        }
    }
}

pub proof fn lemma_covered_all(d: JsonValue, res: Seq<RefModel>)
    requires
        unique_keys(d),
    ensures
        forall|q: Seq<usize>| q.len() > 0 ==> (covered(d, found_paths(res, d, seq![], seq![]),
            found_paths(res, d, seq![], seq![]).len() as int).contains(q) <==> selected_positions(d, res).contains(q)),
{
    let paths = found_paths(res, d, seq![], seq![]);
    let e = Seq::<usize>::empty();
    let n = paths.len() as int;
    lemma_found_paths_sound(res, d, e, seq![]);
    assert forall|q: Seq<usize>| q.len() > 0 implies (covered(d, paths, n).contains(q)
        <==> selected_positions(d, res).contains(q)) by {
        if covered(d, paths, n).contains(q) {
            let j = choose|j: int| 0 <= j < n && paths[j] == #[trigger] key_path(d, q);
            assert(path_of_target(res, d, e, seq![], paths[j]));
            let t = choose|t: Seq<usize>| #[trigger] resolve(d, t) is Some && is_target(res, e + t)
                && paths[j] == seq![] + key_path(d, t);
            assert(seq![] + key_path(d, t) =~= key_path(d, t));
            assert(e + t =~= t);
            lemma_key_path_injective(d, q, t);
        }
        if selected_positions(d, res).contains(q) {
            assert(e + q =~= q);
            lemma_found_paths_complete(res, d, e, seq![], q);
            assert(seq![] + key_path(d, q) =~= key_path(d, q));
            let j = choose|j: int| 0 <= j < paths.len() && paths[j] == key_path(d, q);
            assert(covered(d, paths, n).contains(q));
        }
    }
}

/// Deleting the selected nodes of a document whose objects have unique keys
/// (as serde_json's do) gives the document with each selected node, the
/// root aside, replaced by `null`, and everything else as it was.
pub proof fn law_delete_nulls_selection(d: JsonValue, res: Seq<RefModel>, w: JsonValue)
    requires
        unique_keys(d),
        replaced_all(d, found_paths(res, d, seq![], seq![]), null_value, w),
    ensures
        nulled_at(d, w, seq![], selected_positions(d, res)),
{
    let paths = found_paths(res, d, seq![], seq![]);
    let vals = choose|vals: Seq<JsonValue>| #[trigger] replacement_chain(d, paths, null_value, vals) && vals.last() == w;
    assert(paths.take(paths.len() as int) =~= paths);
    lemma_chain_nulled(d, res, vals, paths.len() as int);
    lemma_covered_all(d, res);
    lemma_nulled_same_positions(d, w, seq![], covered(d, paths, paths.len() as int), selected_positions(d, res));
}

/// Deleting the selected nodes of a document whose objects have unique keys
/// never comes upon an array index past the end.
pub proof fn law_delete_never_halts(d: JsonValue, res: Seq<RefModel>)
    requires
        unique_keys(d),
    ensures
        !replacement_halts(d, found_paths(res, d, seq![], seq![]), null_value),
{
    let paths = found_paths(res, d, seq![], seq![]);
    let e = Seq::<usize>::empty();
    if replacement_halts(d, paths, null_value) {
        let (k, mid) = choose|k: int, mid: JsonValue| 0 <= k < paths.len()
            && #[trigger] replaced_all(d, paths.take(k), null_value, mid) && locate(mid, paths[k]) is OutOfBounds;
        let vals = choose|vals: Seq<JsonValue>| #[trigger] replacement_chain(d, paths.take(k), null_value, vals) && vals.last() == mid;
        lemma_chain_nulled(d, res, vals, k);
        lemma_found_paths_sound(res, d, e, seq![]);
        assert(path_of_target(res, d, e, seq![], paths[k]));
        let t = choose|t: Seq<usize>| #[trigger] resolve(d, t) is Some && is_target(res, e + t)
            && paths[k] == seq![] + key_path(d, t);
        assert(seq![] + key_path(d, t) =~= key_path(d, t));
        if t.len() == 0 {
            assert(key_path(d, t) =~= Seq::<Seq<char>>::empty());
        } else {
            lemma_locate_nulled(d, mid, e, covered(d, paths, k), t);
        }
    }
}

proof fn lemma_flatten_no_dup<A>(ss: Seq<Seq<A>>)
    requires
        forall|i: int| 0 <= i < ss.len() ==> (#[trigger] ss[i]).no_duplicates(),
        forall|i: int, j: int, a: int, b: int| 0 <= i < j < ss.len() && 0 <= a < ss[i].len() && 0 <= b < ss[j].len()
            ==> #[trigger] ss[i][a] != #[trigger] ss[j][b],
    ensures
        ss.flatten().no_duplicates(),
    decreases ss.len(),
{
    if ss.len() > 0 {
        let init = ss.drop_last();
        assert forall|i: int| 0 <= i < init.len() implies (#[trigger] init[i]).no_duplicates() by {
            assert(init[i] == ss[i]);
        }
        assert forall|i: int, j: int, a: int, b: int| 0 <= i < j < init.len() && 0 <= a < init[i].len() && 0 <= b < init[j].len()
            implies #[trigger] init[i][a] != #[trigger] init[j][b] by {
            assert(init[i] == ss[i]);
            assert(init[j] == ss[j]);
        }
        lemma_flatten_no_dup(init);
        assert(init.push(ss.last()) =~= ss);
        init.lemma_flatten_push(ss.last());
        let l = ss.len() - 1;
        assert(ss[l].no_duplicates());
        assert forall|x: int, y: int| 0 <= x < init.flatten().len() && 0 <= y < ss.last().len()
            implies init.flatten()[x] != ss.last()[y] by {
            lemma_flatten_member(init, x);
            let (i, a) = choose|i: int, a: int| 0 <= i < init.len() && 0 <= a < init[i].len() && init.flatten()[x] == #[trigger] init[i][a];
            assert(init[i] == ss[i]);
            assert(ss[i][a] != ss[l][y]);
        }
        vstd::seq_lib::lemma_no_dup_in_concat(init.flatten(), ss.last());
    }
}

/// In a document whose objects have unique keys, the selector collects
/// each key path once.
pub proof fn lemma_found_paths_distinct(res: Seq<RefModel>, v: JsonValue, p: Seq<usize>, toks: Seq<Seq<char>>)
    requires
        unique_keys(v),
    ensures
        found_paths(res, v, p, toks).no_duplicates(),
    decreases v,
{
    let head = if is_target(res, p) { seq![toks] } else { seq![] };
    let kids = found_kids(res, v, p, toks);
    // every path collected under child `i` continues `toks` with the child's key
    assert forall|i: int| 0 <= i < kids.len() implies (#[trigger] kids[i]).no_duplicates()
        && forall|a: int| 0 <= a < kids[i].len() ==> kids[i][a].len() > toks.len()
            && (#[trigger] kids[i][a])[toks.len() as int] == (match v {
                JsonValue::Array(_) => decimal(i as nat),
                JsonValue::Object(m) => m@[i].0@,
                _ => seq![],
            }) by {
        crate::laws::lemma_kid_index(v, i);
        let iu = i as usize;
        let (c, key) = match v {
            JsonValue::Array(a) => (a@[i], decimal(i as nat)),
            JsonValue::Object(m) => (m@[i].1, m@[i].0@),
            _ => (v, seq![]),
        };
        assert(kids[i] == found_paths(res, c, p.push(iu), toks.push(key)));
        assert(unique_keys(c));
        assert(decreases_to!(v => c)) by {
            match v {
                JsonValue::Array(a) => assert(decreases_to!(v => a@[i])),
                JsonValue::Object(m) => assert(decreases_to!(v => m@[i].1)),
                _ => {},
            }
        }
        lemma_found_paths_distinct(res, c, p.push(iu), toks.push(key));
        lemma_found_paths_sound(res, c, p.push(iu), toks.push(key));
        assert forall|a: int| 0 <= a < kids[i].len() implies kids[i][a].len() > toks.len()
            && (#[trigger] kids[i][a])[toks.len() as int] == key by {
            assert(path_of_target(res, c, p.push(iu), toks.push(key), kids[i][a]));
            let t1 = choose|t1: Seq<usize>| #[trigger] resolve(c, t1) is Some && is_target(res, p.push(iu) + t1)
                && kids[i][a] == toks.push(key) + key_path(c, t1);
            assert((toks.push(key) + key_path(c, t1))[toks.len() as int] == key);
        }
    }
    assert forall|i: int, j: int, a: int, b: int| 0 <= i < j < kids.len() && 0 <= a < kids[i].len() && 0 <= b < kids[j].len()
        implies #[trigger] kids[i][a] != #[trigger] kids[j][b] by {
        crate::laws::lemma_kid_index(v, i);
        crate::laws::lemma_kid_index(v, j);
        match v {
            JsonValue::Array(_) => {
                lemma_decimal_parses(i as nat);
                lemma_decimal_parses(j as nat);
                assert(kids[i][a][toks.len() as int] != kids[j][b][toks.len() as int]);
            },
            JsonValue::Object(m) => {
                assert(m@[i].0@ != m@[j].0@);
                assert(kids[i][a][toks.len() as int] != kids[j][b][toks.len() as int]);
            },
            _ => {},
        }
    }
    lemma_flatten_no_dup(kids);
    assert forall|x: int, y: int| 0 <= x < head.len() && 0 <= y < kids.flatten().len() implies head[x] != kids.flatten()[y] by {
        lemma_flatten_member(kids, y);
        let (i, a) = choose|i: int, a: int| 0 <= i < kids.len() && 0 <= a < kids[i].len() && kids.flatten()[y] == #[trigger] kids[i][a];
        assert(kids[i][a].len() > toks.len());
    }
    vstd::seq_lib::lemma_no_dup_in_concat(head, kids.flatten());
}

/// `x` is the key path of a selected node of `d` (at position `t`), and
/// following it in `d` leads to that node (the root's path being empty).
pub open spec fn leads_to_selected(d: JsonValue, res: Seq<RefModel>, x: Seq<Seq<char>>) -> bool {
    exists|t: Seq<usize>| #[trigger] resolve(d, t) is Some && is_target(res, t) && x == key_path(d, t)
        && (if t.len() == 0 { x.len() == 0 } else { locate(d, x) == Located::Found(t) })
}

/// In a document whose objects have unique keys, the selector collects one
/// key path per selected node: no path twice, each path that of a selected
/// node and leading back to it (the root's path being empty), and the path
/// of every selected node among them.
pub proof fn law_collected_paths(d: JsonValue, res: Seq<RefModel>)
    requires
        unique_keys(d),
    ensures
        found_paths(res, d, seq![], seq![]).no_duplicates(),
        forall|k: int| 0 <= k < found_paths(res, d, seq![], seq![]).len()
            ==> leads_to_selected(d, res, #[trigger] found_paths(res, d, seq![], seq![])[k]),
        forall|t: Seq<usize>| #[trigger] resolve(d, t) is Some && is_target(res, t)
            ==> found_paths(res, d, seq![], seq![]).contains(key_path(d, t)),
{
    let paths = found_paths(res, d, seq![], seq![]);
    let e = Seq::<usize>::empty();
    lemma_found_paths_distinct(res, d, e, seq![]);
    lemma_found_paths_sound(res, d, e, seq![]);
    lemma_nulled_none(d, e);
    assert forall|k: int| 0 <= k < paths.len() implies leads_to_selected(d, res, #[trigger] paths[k]) by {
        assert(path_of_target(res, d, e, seq![], paths[k]));
        let t = choose|t: Seq<usize>| #[trigger] resolve(d, t) is Some && is_target(res, e + t)
            && paths[k] == seq![] + key_path(d, t);
        assert(e + t =~= t);
        assert(seq![] + key_path(d, t) =~= key_path(d, t));
        lemma_key_path_len(d, t);
        if t.len() > 0 {
            lemma_locate_nulled(d, d, e, Set::empty(), t);
        }
    }
    assert(paths == found_paths(res, d, seq![], seq![]));
    assert(e == Seq::<usize>::empty());
    assert forall|t: Seq<usize>| #[trigger] resolve(d, t) is Some && is_target(res, t) implies paths.contains(key_path(d, t)) by {
        assert(e + t =~= t);
        lemma_found_paths_complete(res, d, e, seq![], t);
        assert(seq![] + key_path(d, t) =~= key_path(d, t));
    }
}

} // verus!
