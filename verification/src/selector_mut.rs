//! The mutating selector: replaces or deletes the nodes that a path selects.
use vstd::prelude::*;
use crate::json::{JsonValue, resolve};
use crate::refs::{ValueRef, RefModel, models, find_key, lookup, extend_path};
use crate::text::{decimal, parse_usize_spec};
use crate::outside::{index_to_string, parse_index};
use crate::token::{Node, TokenModel, strings_model};
use crate::error::{Halt, JsonPathError, ErrorModel};
use crate::selector::{Selector, SelectorModel, select_outcome};
use crate::walk::{lemma_flatten_step, lemma_take_all};
use crate::deletion::{unique_keys, nulled_at, selected_positions, law_delete_never_halts, law_delete_nulls_selection};
use crate::replacing::{mapped_at, non_nested, law_replace_non_nested};

verus! {

// ---------------------------------------------------------------------------
// Paths of selected nodes

/// Whether a node at position `p` is among the selected nodes.
pub open spec fn is_target(res: Seq<RefModel>, p: Seq<usize>) -> bool {
    exists|k: int| 0 <= k < res.len() && at_position(#[trigger] res[k], p)
}

/// Whether `r` is the node at position `p`.
pub open spec fn at_position(r: RefModel, p: Seq<usize>) -> bool {
    match r {
        RefModel::Node(q, _) => q == p,
        RefModel::Null => false,
    }
}

/// The key path of each node under (and including) `v`, which sits at
/// position `p` with key path `toks`, that is among the selected nodes, in
/// pre-order: array positions as decimal numerals, object members by key.
pub open spec fn found_paths(res: Seq<RefModel>, v: JsonValue, p: Seq<usize>, toks: Seq<Seq<char>>) -> Seq<Seq<Seq<char>>>
    decreases v, 1nat,
{
    (if is_target(res, p) { seq![toks] } else { seq![] }) + found_kids(res, v, p, toks).flatten()
}

pub open spec fn found_kids(res: Seq<RefModel>, v: JsonValue, p: Seq<usize>, toks: Seq<Seq<char>>) -> Seq<Seq<Seq<Seq<char>>>>
    decreases v, 0nat,
{
    match v {
        JsonValue::Array(a) => Seq::new(
            a@.len(),
            |i: int| if 0 <= i < a@.len() {
                found_paths(res, a@[i], p.push(i as usize), toks.push(decimal(i as nat)))
            } else {
                seq![]
            },
        ),
        JsonValue::Object(m) => Seq::new(
            m@.len(),
            |i: int| if 0 <= i < m@.len() {
                found_paths(res, m@[i].1, p.push(i as usize), toks.push(m@[i].0@))
            } else {
                seq![]
            },
        ),
        _ => seq![],
    }
}

pub open spec fn paths_model(v: Seq<Vec<String>>) -> Seq<Seq<Seq<char>>> {
    v.map_values(|t: Vec<String>| strings_model(t@))
}

fn is_target_exec<'a>(res: &Vec<ValueRef<'a>>, p: &Vec<usize>) -> (r: bool)
    ensures
        r == is_target(models(res@), p@),
{
    for k in 0..res.len()
        invariant
            forall|j: int| 0 <= j < k ==> !at_position(#[trigger] models(res@)[j], p@),
    {
        assert(models(res@)[k as int] == res@[k as int]@);
        if let ValueRef::Node(q, _) = &res[k] {
            if q.len() == p.len() {
                let mut same = true;
                let mut j: usize = 0;
                while j < q.len()
                    invariant
                        j <= q@.len(),
                        q@.len() == p@.len(),
                        same == (forall|x: int| 0 <= x < j ==> q@[x] == p@[x]),
                    decreases q@.len() - j,
                {
                    if q[j] != p[j] {
                        same = false;
                    }
                    j = j + 1;
                }
                if same {
                    assert(q@ =~= p@);
                    return true;
                }
                assert(q@ != p@) by {
                    let x = choose|x: int| 0 <= x < q@.len() && q@[x] != p@[x];
                }
            }
        }
    }
    false
}

fn copy_strings(v: &Vec<String>) -> (r: Vec<String>)
    ensures
        strings_model(r@) == strings_model(v@),
{
    let mut r: Vec<String> = Vec::new();
    for k in 0..v.len()
        invariant
            strings_model(r@) == strings_model(v@).take(k as int),
    {
        let s = v[k].clone();
        assert(s@ == v@[k as int]@);
        proof { crate::token::lemma_strings_push(r@, s); }
        r.push(s);
        assert(strings_model(r@) =~= strings_model(v@).take(k + 1));
    }
    assert(strings_model(v@).take(v@.len() as int) =~= strings_model(v@));
    r
}

fn collect_paths<'a>(res: &Vec<ValueRef<'a>>, v: &JsonValue, p: &Vec<usize>, toks: &Vec<String>, out: &mut Vec<Vec<String>>)
    ensures
        paths_model(final(out)@) == paths_model(old(out)@) + found_paths(models(res@), *v, p@, strings_model(toks@)),
    decreases v,
{
    if is_target_exec(res, p) {
        let t = copy_strings(toks);
        out.push(t);
        assert(paths_model(out@) =~= paths_model(old(out)@) + seq![strings_model(toks@)]);
    } else {
        assert(paths_model(out@) =~= paths_model(old(out)@) + seq![]);
    }
    let ghost mid = paths_model(out@);
    let ghost kids = found_kids(models(res@), *v, p@, strings_model(toks@));
    match v {
        JsonValue::Array(a) => {
            for i in 0..a.len()
                invariant
                    *v == JsonValue::Array(*a),
                    kids == found_kids(models(res@), *v, p@, strings_model(toks@)),
                    paths_model(out@) == mid + kids.take(i as int).flatten(),
            {
                let q = extend_path(p, i);
                let mut t = copy_strings(toks);
                let d = index_to_string(i);
                proof { crate::token::lemma_strings_push(t@, d); }
                t.push(d);
                assert(strings_model(t@) =~= strings_model(toks@).push(decimal(i as nat)));
                proof {
                    assert(decreases_to!(*v => (*v)->Array_0));
                    assert(decreases_to!(*a => a@[i as int]));
                }
                collect_paths(res, &a[i], &q, &t, out);
                proof { lemma_flatten_step(kids, i as int); }
            }
            proof { lemma_take_all(kids); }
        },
        JsonValue::Object(m) => {
            for i in 0..m.len()
                invariant
                    *v == JsonValue::Object(*m),
                    kids == found_kids(models(res@), *v, p@, strings_model(toks@)),
                    paths_model(out@) == mid + kids.take(i as int).flatten(),
            {
                let q = extend_path(p, i);
                let mut t = copy_strings(toks);
                let d = m[i].0.clone();
                proof { crate::token::lemma_strings_push(t@, d); }
                t.push(d);
                assert(strings_model(t@) =~= strings_model(toks@).push(m@[i as int].0@));
                proof {
                    assert(decreases_to!(*v => (*v)->Object_0));
                    assert(decreases_to!(*m => m@[i as int]));
                    assert(decreases_to!(m@[i as int] => m@[i as int].1));
                }
                collect_paths(res, &m[i].1, &q, &t, out);
                proof { lemma_flatten_step(kids, i as int); }
            }
            proof { lemma_take_all(kids); }
        },
        _ => {
            assert(kids.flatten() =~= seq![]);
        },
    }
    assert(paths_model(out@) =~= paths_model(old(out)@) + found_paths(models(res@), *v, p@, strings_model(toks@)));
}


// ---------------------------------------------------------------------------
// Replacing the node at a key path

/// Where a key path leads in a value.
pub enum Located {
    /// To the node at this position.
    Found(Seq<usize>),
    /// Nowhere; nothing is replaced.
    NotFound,
    /// To an array index past the end, at the last step.
    OutOfBounds,
}

pub open spec fn prepend(i: usize, l: Located) -> Located {
    match l {
        Located::Found(p) => Located::Found(seq![i] + p),
        other => other,
    }
}

/// Follows a key path: object members by key, array elements by a key that
/// parses as an index.
pub open spec fn locate(v: JsonValue, toks: Seq<Seq<char>>) -> Located
    decreases toks.len(),
{
    if toks.len() == 0 {
        Located::NotFound
    } else {
        let t = toks[0];
        let last = toks.len() == 1;
        match v {
            JsonValue::Object(m) => match find_key(m@, t) {
                Some(i) => if last {
                    Located::Found(seq![i as usize])
                } else {
                    prepend(i as usize, locate(m@[i].1, toks.drop_first()))
                },
                None => Located::NotFound,
            },
            JsonValue::Array(a) => match parse_usize_spec(t) {
                Some(x) => if last {
                    if x < a@.len() { Located::Found(seq![x]) } else { Located::OutOfBounds }
                } else if x < a@.len() {
                    prepend(x, locate(a@[x as int], toks.drop_first()))
                } else {
                    Located::NotFound
                },
                None => Located::NotFound,
            },
            _ => Located::NotFound,
        }
    }
}

/// `new` is `old` with the node at position `p` replaced by `y`, all else
/// (keys of objects included) the same.
pub open spec fn replaced_at(old: JsonValue, p: Seq<usize>, y: JsonValue, new: JsonValue) -> bool
    decreases p.len(),
{
    if p.len() == 0 {
        new == y
    } else {
        let i = p[0] as int;
        match (old, new) {
            (JsonValue::Array(a), JsonValue::Array(b)) => b@.len() == a@.len() && i < a@.len()
                && (forall|j: int| 0 <= j < a@.len() && j != i ==> b@[j] == a@[j])
                && replaced_at(a@[i], p.drop_first(), y, b@[i]),
            (JsonValue::Object(m), JsonValue::Object(n)) => n@.len() == m@.len() && i < m@.len()
                && (forall|j: int| 0 <= j < m@.len() && j != i ==> n@[j] == m@[j])
                && n@[i].0 == m@[i].0
                && replaced_at(m@[i].1, p.drop_first(), y, n@[i].1),
            _ => false,
        }
    }
}

/// The node at position `p` of `v` (`null` if there is none).
pub open spec fn node_at(v: JsonValue, p: Seq<usize>) -> JsonValue {
    match resolve(v, p) {
        Some(x) => x,
        None => JsonValue::Null,
    }
}

/// `w` is what replacing the node that the key path leads to by a result
/// of `f` on it gives: unchanged when the path leads nowhere.
pub open spec fn replaced<F: Fn(&JsonValue) -> JsonValue>(v: JsonValue, toks: Seq<Seq<char>>, f: F, w: JsonValue) -> bool {
    match locate(v, toks) {
        Located::Found(p) => resolve(v, p) is Some && exists|y: JsonValue|
            f.ensures((&node_at(v, p),), y) && #[trigger] replaced_at(v, p, y, w),
        Located::NotFound => w == v,
        Located::OutOfBounds => false,
    }
}

/// Where a key path leads (see `locate`).
pub enum Location {
    Found(Vec<usize>),
    NotFound,
    OutOfBounds,
}

impl View for Location {
    type V = Located;

    open spec fn view(&self) -> Located {
        match self {
            Location::Found(p) => Located::Found(p@),
            Location::NotFound => Located::NotFound,
            Location::OutOfBounds => Located::OutOfBounds,
        }
    }
}

fn prepend_exec(i: usize, l: Location) -> (r: Location)
    ensures
        r@ == prepend(i, l@),
{
    match l {
        Location::Found(p) => {
            let mut q: Vec<usize> = Vec::new();
            q.push(i);
            for k in 0..p.len()
                invariant
                    q@ == seq![i] + p@.take(k as int),
            {
                q.push(p[k]);
                assert(q@ =~= seq![i] + p@.take(k + 1));
            }
            assert(p@.take(p@.len() as int) =~= p@);
            Location::Found(q)
        },
        other => other,
    }
}

/// Follows key path `toks[k..]` in `v` (see `locate`).
fn locate_from(v: &JsonValue, toks: &Vec<String>, k: usize) -> (r: Location)
    requires
        k <= toks@.len(),
    ensures
        r@ == locate(*v, strings_model(toks@).skip(k as int)),
    decreases toks@.len() - k,
{
    let ghost ts = strings_model(toks@).skip(k as int);
    if k >= toks.len() {
        return Location::NotFound;
    }
    assert(ts[0] == toks@[k as int]@);
    assert(ts.drop_first() =~= strings_model(toks@).skip(k + 1));
    let last = k + 1 == toks.len();
    assert(ts.len() == toks@.len() - k);
    match v {
        JsonValue::Object(m) => match lookup(m, &toks[k]) {
            Some(i) => {
                proof { crate::refs::lemma_find_key_some(m@, toks@[k as int]@); }
                if last {
                    let mut p: Vec<usize> = Vec::new();
                    p.push(i);
                    assert(p@ =~= seq![i]);
                    Location::Found(p)
                } else {
                    prepend_exec(i, locate_from(&m[i].1, toks, k + 1))
                }
            },
            None => Location::NotFound,
        },
        JsonValue::Array(a) => match parse_index(&toks[k]) {
            Some(x) => {
                if last {
                    if x < a.len() {
                        let mut p: Vec<usize> = Vec::new();
                        p.push(x);
                        assert(p@ =~= seq![x]);
                        Location::Found(p)
                    } else {
                        Location::OutOfBounds
                    }
                } else if x < a.len() {
                    prepend_exec(x, locate_from(&a[x], toks, k + 1))
                } else {
                    Location::NotFound
                }
            },
            None => Location::NotFound,
        },
        _ => Location::NotFound,
    }
}

/// Replaces the node of `v` at position `p[j..]` by the result of `f` on it.
fn replace_at<F: Fn(&JsonValue) -> JsonValue>(v: JsonValue, p: &Vec<usize>, j: usize, f: &F) -> (w: JsonValue)
    requires
        j <= p@.len(),
        resolve(v, p@.skip(j as int)) is Some,
        forall|x: &JsonValue| #[trigger] f.requires((x,)),
    ensures
        exists|y: JsonValue| f.ensures((&node_at(v, p@.skip(j as int)),), y) && #[trigger] replaced_at(v, p@.skip(j as int), y, w),
    decreases p@.len() - j,
{
    let ghost q = p@.skip(j as int);
    if j == p.len() {
        assert(q =~= Seq::<usize>::empty());
        let y = f(&v);
        assert(replaced_at(v, q, y, y));
        return y;
    }
    assert(q[0] == p@[j as int]);
    assert(q.drop_first() =~= p@.skip(j + 1));
    let i = p[j];
    match v {
        JsonValue::Object(m) => {
            let mut m = m;
            let ghost m0 = m@;
            let (key, child) = m.remove(i);
            let ghost c0 = child;
            let r = replace_at(child, p, j + 1, f);
            m.insert(i, (key, r));
            proof {
                let y = choose|y: JsonValue| f.ensures((&node_at(c0, q.drop_first()),), y) && #[trigger] replaced_at(c0, q.drop_first(), y, r);
                assert(forall|t: int| 0 <= t < m0.len() && t != i ==> m@[t] == m0[t]);
                assert(replaced_at(v, q, y, JsonValue::Object(m)));
                assert(node_at(v, q) == node_at(c0, q.drop_first()));
            }
            JsonValue::Object(m)
        },
        JsonValue::Array(a) => {
            let mut a = a;
            let ghost a0 = a@;
            let child = a.remove(i);
            let ghost c0 = child;
            let r = replace_at(child, p, j + 1, f);
            a.insert(i, r);
            proof {
                let y = choose|y: JsonValue| f.ensures((&node_at(c0, q.drop_first()),), y) && #[trigger] replaced_at(c0, q.drop_first(), y, r);
                assert(forall|t: int| 0 <= t < a0.len() && t != i ==> a@[t] == a0[t]);
                assert(replaced_at(v, q, y, JsonValue::Array(a)));
                assert(node_at(v, q) == node_at(c0, q.drop_first()));
            }
            JsonValue::Array(a)
        },
        other => {
            other
        },
    }
}


proof fn lemma_locate_resolves(v: JsonValue, ts: Seq<Seq<char>>)
    ensures
        locate(v, ts) matches Located::Found(p) ==> resolve(v, p) is Some,
    decreases ts.len(),
{
    if ts.len() > 0 {
        match v {
            JsonValue::Object(m) => {
                crate::refs::lemma_find_key_some(m@, ts[0]);
                if let Some(i) = find_key(m@, ts[0]) {
                    assert(m.len() == m@.len());
                    let iu = i as usize;
                    assert(iu as int == i);
                    assert(v.kid(i) == m@[i].1);
                    if ts.len() == 1 {
                        let p = seq![iu];
                        assert(p.drop_first() =~= Seq::<usize>::empty());
                        assert(resolve(m@[i].1, p.drop_first()) == Some(m@[i].1));
                        assert(resolve(v, p) is Some);
                    } else {
                        lemma_locate_resolves(m@[i].1, ts.drop_first());
                        if let Located::Found(q) = locate(m@[i].1, ts.drop_first()) {
                            let p = seq![iu] + q;
                            assert(p.drop_first() =~= q);
                            assert(p[0] == iu);
                            assert(resolve(v, p) == resolve(m@[i].1, q));
                        }
                    }
                }
            },
            JsonValue::Array(a) => {
                if let Some(x) = parse_usize_spec(ts[0]) {
                    if x < a@.len() {
                        assert(v.kid(x as int) == a@[x as int]);
                        if ts.len() == 1 {
                            let p = seq![x];
                            assert(p.drop_first() =~= Seq::<usize>::empty());
                            assert(resolve(a@[x as int], p.drop_first()) == Some(a@[x as int]));
                            assert(resolve(v, p) is Some);
                        } else {
                            lemma_locate_resolves(a@[x as int], ts.drop_first());
                            if let Located::Found(q) = locate(a@[x as int], ts.drop_first()) {
                                let p = seq![x] + q;
                                assert(p.drop_first() =~= q);
                                assert(p[0] == x);
                                assert(resolve(v, p) == resolve(a@[x as int], q));
                            }
                        }
                    }
                }
            },
            _ => {},
        }
    }
}

/// Replaces, in `v`, the node that key path `toks` leads to by the result
/// of `f` on it (see `replaced`); `IndexOutOfBounds` when the last step
/// is an array index past the end.
pub fn replace_value<F: Fn(&JsonValue) -> JsonValue>(toks: &Vec<String>, v: JsonValue, f: &F) -> (r: Result<JsonValue, Halt>)
    requires
        forall|x: &JsonValue| #[trigger] f.requires((x,)),
    ensures
        match locate(v, strings_model(toks@)) {
            Located::OutOfBounds => r == Err::<JsonValue, Halt>(Halt::IndexOutOfBounds),
            _ => r matches Ok(w) && replaced(v, strings_model(toks@), *f, w),
        },
{
    let loc = locate_from(&v, toks, 0);
    assert(strings_model(toks@).skip(0) =~= strings_model(toks@));
    match loc {
        Location::Found(p) => {
            proof {
                lemma_locate_resolves(v, strings_model(toks@));
                assert(p@.skip(0) =~= p@);
            }
            let w = replace_at(v, &p, 0, f);
            Ok(w)
        },
        Location::NotFound => Ok(v),
        Location::OutOfBounds => Err(Halt::IndexOutOfBounds),
    }
}

/// `vals` are the documents that replacing, one key path after the other,
/// the nodes the paths lead to goes through: `vals[k + 1]` is `vals[k]`
/// after path `k`.
pub open spec fn replacement_chain<F: Fn(&JsonValue) -> JsonValue>(v: JsonValue, paths: Seq<Seq<Seq<char>>>, f: F, vals: Seq<JsonValue>) -> bool {
    &&& vals.len() == paths.len() + 1
    &&& vals[0] == v
    &&& forall|k: int| #![trigger paths[k]] 0 <= k < paths.len() ==> replaced(vals[k], paths[k], f, vals[k + 1])
}

/// `w` is what replacing, one key path after the other, the nodes the
/// paths lead to gives.
pub open spec fn replaced_all<F: Fn(&JsonValue) -> JsonValue>(v: JsonValue, paths: Seq<Seq<Seq<char>>>, f: F, w: JsonValue) -> bool {
    exists|vals: Seq<JsonValue>| #[trigger] replacement_chain(v, paths, f, vals) && vals.last() == w
}

proof fn lemma_replaced_all_push<F: Fn(&JsonValue) -> JsonValue>(v: JsonValue, paths: Seq<Seq<Seq<char>>>, f: F, mid: JsonValue, q: Seq<Seq<char>>, w: JsonValue)
    requires
        replaced_all(v, paths, f, mid),
        replaced(mid, q, f, w),
    ensures
        replaced_all(v, paths.push(q), f, w),
{
    let vals = choose|vals: Seq<JsonValue>| #[trigger] replacement_chain(v, paths, f, vals) && vals.last() == mid;
    let ps = paths.push(q);
    let ws = vals.push(w);
    assert forall|k: int| #![trigger ps[k]] 0 <= k < ps.len() implies replaced(ws[k], ps[k], f, ws[k + 1]) by {
        if k < paths.len() {
            assert(paths[k] == ps[k]);
        }
    }
    assert(replacement_chain(v, ps, f, ws));
}

proof fn lemma_replaced_all_empty<F: Fn(&JsonValue) -> JsonValue>(v: JsonValue, paths: Seq<Seq<Seq<char>>>, f: F)
    requires
        paths.len() == 0,
    ensures
        replaced_all(v, paths, f, v),
{
    assert(replacement_chain(v, paths, f, seq![v]));
}

/// Replacing along no key path leaves the document as it was.
pub proof fn law_replace_nothing<F: Fn(&JsonValue) -> JsonValue>(v: JsonValue, f: F, w: JsonValue)
    requires
        replaced_all(v, seq![], f, w),
    ensures
        w == v,
{
    let vals = choose|vals: Seq<JsonValue>| #[trigger] replacement_chain(v, seq![], f, vals) && vals.last() == w;
    assert(vals.len() == 1);
}

/// Replacing one key path after the other reaches, at path `k`, an array
/// index past the end.
pub open spec fn replacement_halts<F: Fn(&JsonValue) -> JsonValue>(v: JsonValue, paths: Seq<Seq<Seq<char>>>, f: F) -> bool {
    exists|k: int, mid: JsonValue| 0 <= k < paths.len() && #[trigger] replaced_all(v, paths.take(k), f, mid)
        && locate(mid, paths[k]) is OutOfBounds
}

/// Replacing one key path after the other reaches, at path `k`, an array
/// index past the end, with the document then being `mid` (the paths
/// before `k` replaced).
pub open spec fn halts_leaving<F: Fn(&JsonValue) -> JsonValue>(v: JsonValue, paths: Seq<Seq<Seq<char>>>, f: F, mid: JsonValue) -> bool {
    exists|k: int| 0 <= k < paths.len() && #[trigger] replaced_all(v, paths.take(k), f, mid)
        && locate(mid, paths[k]) is OutOfBounds
}

/// The selector that replaces what a path selects.
pub struct SelectorMut {
    path: Option<Node>,
    value: Option<JsonValue>,
}

pub struct SelectorMutModel {
    pub path: Option<Seq<TokenModel>>,
    pub value: Option<JsonValue>,
}

impl View for SelectorMut {
    type V = SelectorMutModel;

    closed spec fn view(&self) -> SelectorMutModel {
        SelectorMutModel {
            path: match self.path {
                Some(n) => Some(n@),
                None => None,
            },
            value: self.value,
        }
    }
}

/// The selector with its document replaced by `v`, its path kept.
pub open spec fn with_document(m: SelectorMutModel, v: Option<JsonValue>) -> SelectorMutModel {
    SelectorMutModel { path: m.path, value: v }
}

/// Taking the document out after setting it gives that document back, and
/// leaves the selector with its path and no document.
pub proof fn law_take_after_value(m: SelectorMutModel, v: JsonValue)
    ensures
        with_document(m, Some(v)).value == Some(v),
        with_document(with_document(m, Some(v)), None) == with_document(m, None),
{
}

/// The plain selector that `SelectorMut` selects with: the path as a
/// compiled path, on the document.
pub open spec fn plain_selector(m: SelectorMutModel, ts: Seq<TokenModel>) -> SelectorModel {
    SelectorModel {
        value: m.value,
        node: None,
        node_ref: Some(ts),
        tokens: seq![],
        terms: seq![],
        current: None,
        selectors: seq![],
    }
}

/// What `SelectorMut` selects: `EmptyPath` without a path.
pub open spec fn mut_select_outcome(m: SelectorMutModel) -> Result<Seq<RefModel>, ErrorModel> {
    match m.path {
        None => Err(ErrorModel::EmptyPath),
        Some(ts) => select_outcome(plain_selector(m, ts)),
    }
}

/// The mutating selector selects what a new plain selector selects, given
/// the same compiled path (with `compiled_path`) and document (with `value`).
pub proof fn law_mut_selects_as_plain(m: SelectorMutModel, ts: Seq<TokenModel>)
    requires
        m.path == Some(ts),
    ensures
        mut_select_outcome(m) == select_outcome(SelectorModel {
            value: m.value,
            node: None,
            node_ref: Some(ts),
            tokens: seq![],
            terms: seq![],
            current: None,
            selectors: seq![],
        }),
{
}

/// The key paths of the selected nodes of the document, in pre-order.
pub open spec fn target_paths(v: Option<JsonValue>, res: Seq<RefModel>) -> Seq<Seq<Seq<char>>> {
    match v {
        Some(d) => found_paths(res, d, seq![], seq![]),
        None => seq![],
    }
}

/// The replacement used by `delete`: `null`, whatever the node.
pub fn null_value(_v: &JsonValue) -> (r: JsonValue)
    ensures
        r is Null,
{
    JsonValue::Null
}

impl SelectorMut {
    pub fn new() -> (s: Self)
        ensures
            s@ == (SelectorMutModel { path: None, value: None }),
    {
        SelectorMut { path: None, value: None }
    }

    /// Sets the path from what compiling it gave: the compiled path, or the
    /// compiler's message (then a `Path` error, the path unchanged).
    pub fn str_path(&mut self, compiled: Result<Node, String>) -> (r: Result<(), JsonPathError>)
        ensures
            match compiled {
                Ok(n) => r is Ok && final(self)@ == (SelectorMutModel { path: Some(n@), value: old(self)@.value }),
                Err(m) => r matches Err(e) && e@ == ErrorModel::Path(m@) && final(self)@ == old(self)@,
            },
    {
        match compiled {
            Ok(n) => {
                self.path = Some(n);
                Ok(())
            },
            Err(m) => Err(JsonPathError::Path(m)),
        }
    }

    /// Sets the document.
    pub fn value(&mut self, value: JsonValue)
        ensures
            final(self)@ == with_document(old(self)@, Some(value)),
    {
        self.value = Some(value);
    }

    /// Takes the document out.
    pub fn take(&mut self) -> (r: Option<JsonValue>)
        ensures
            r == old(self)@.value,
            final(self)@ == with_document(old(self)@, None),
    {
        self.value.take()
    }

    /// Key paths of the nodes of the document that are in `result`, in
    /// pre-order.
    fn compute_paths<'a>(&self, result: Vec<ValueRef<'a>>) -> (r: Vec<Vec<String>>)
        ensures
            paths_model(r@) == target_paths(self@.value, models(result@)),
    {
        let mut out: Vec<Vec<String>> = Vec::new();
        if let Some(origin) = &self.value {
            let p: Vec<usize> = Vec::new();
            let t: Vec<String> = Vec::new();
            assert(strings_model(t@) =~= seq![]);
            assert(paths_model(out@) =~= seq![]);
            collect_paths(&result, origin, &p, &t, &mut out);
            assert(p@ =~= Seq::<usize>::empty());
        }
        assert(self@.value is None ==> paths_model(out@) =~= seq![]);
        out
    }

    /// Selects with the path from the document.
    fn select(&self) -> (r: Result<Vec<ValueRef<'_>>, JsonPathError>)
        ensures
            match mut_select_outcome(self@) {
                Ok(c) => r matches Ok(v) && models(v@) == c,
                Err(e) => r matches Err(x) && x@ == e,
            },
    {
        match &self.path {
            Some(node) => {
                let mut selector = Selector::new();
                selector.compiled_path(node);
                if let Some(value) = &self.value {
                    selector.value(value);
                }
                proof {
                    assert(selector@ == plain_selector(self@, node@));
                }
                selector.select()
            },
            None => Err(JsonPathError::EmptyPath),
        }
    }

    /// Replaces each selected node of the document, in pre-order, by the
    /// result of `fun` on it (see `replaced_all`). When a key path ends at an
    /// array index past the end, the document is kept as replaced so far.
    pub fn replace_with<F: Fn(&JsonValue) -> JsonValue>(&mut self, fun: &F) -> (r: Result<(), JsonPathError>)
        requires
            forall|x: &JsonValue| #[trigger] fun.requires((x,)),
        ensures
            match mut_select_outcome(old(self)@) {
                Err(e) => r matches Err(x) && x@ == e && final(self)@ == old(self)@,
                Ok(res) => match old(self)@.value {
                    None => r is Ok && final(self)@ == old(self)@,
                    Some(v) => {
                        let paths = target_paths(old(self)@.value, res);
                        &&& r is Ok ==> final(self)@.path == old(self)@.path && (final(self)@.value matches Some(w)
                            && replaced_all(v, paths, *fun, w))
                        &&& r is Err ==> (r matches Err(x) && x@ == ErrorModel::Halted(Halt::IndexOutOfBounds))
                            && replacement_halts(v, paths, *fun)
                            && final(self)@.path == old(self)@.path
                            && (final(self)@.value matches Some(mid) && halts_leaving(v, paths, *fun, mid))
                        &&& unique_keys(v) && non_nested(selected_positions(v, res)) ==> r is Ok
                            && (final(self)@.value matches Some(w) && mapped_at(v, w, seq![], selected_positions(v, res), *fun))
                    },
                },
            },
    {
        let paths = {
            let result = self.select()?;
            self.compute_paths(result)
        };
        proof {
            if let Ok(res) = mut_select_outcome(old(self)@) {
                if let Some(v) = old(self)@.value {
                    if unique_keys(v) && non_nested(selected_positions(v, res)) {
                        law_replace_non_nested(v, res, *fun, v);
                    }
                }
            }
        }
        let ghost sel = match mut_select_outcome(old(self)@) {
            Ok(res) => match old(self)@.value {
                Some(v) => selected_positions(v, res),
                None => Set::empty(),
            },
            Err(_) => Set::empty(),
        };
        let ghost ps = paths_model(paths@);
        match self.value.take() {
            Some(v) => {
                let ghost v0 = v;
                let mut cur = v;
                proof { lemma_replaced_all_empty(v0, ps.take(0), *fun); }
                for i in 0..paths.len()
                    invariant
                        ps == paths_model(paths@),
                        old(self)@.value == Some(v0),
                        self@.path == old(self)@.path,
                        mut_select_outcome(old(self)@) is Ok,
                        ps == target_paths(old(self)@.value, mut_select_outcome(old(self)@)->Ok_0),
                        forall|x: &JsonValue| #[trigger] fun.requires((x,)),
                        replaced_all(v0, ps.take(i as int), *fun, cur),
                        sel == selected_positions(v0, mut_select_outcome(old(self)@)->Ok_0),
                        unique_keys(v0) && non_nested(sel) ==> !replacement_halts(v0, ps, *fun),
                {
                    let ghost prev = cur;
                    proof { assert(strings_model(paths@[i as int]@).skip(0) =~= strings_model(paths@[i as int]@)); }
                    if let Location::OutOfBounds = locate_from(&cur, &paths[i], 0) {
                        proof {
                            assert(ps[i as int] == strings_model(paths@[i as int]@));
                            assert(halts_leaving(v0, ps, *fun, prev));
                            assert(replacement_halts(v0, ps, *fun));
                        }
                        self.value = Some(cur);
                        return Err(JsonPathError::Halted(Halt::IndexOutOfBounds));
                    }
                    match replace_value(&paths[i], cur, fun) {
                        Ok(w) => {
                            proof {
                                assert(ps[i as int] == strings_model(paths@[i as int]@));
                                lemma_replaced_all_push(v0, ps.take(i as int), *fun, prev, ps[i as int], w);
                                assert(ps.take(i as int).push(ps[i as int]) =~= ps.take(i + 1));
                            }
                            cur = w;
                        },
                        Err(h) => {
                            proof { assert(false); }
                            return Err(JsonPathError::Halted(h));
                        },
                    }
                }
                assert(ps.take(ps.len() as int) =~= ps);
                proof {
                    if unique_keys(v0) && non_nested(sel) {
                        law_replace_non_nested(v0, mut_select_outcome(old(self)@)->Ok_0, *fun, cur);
                    }
                }
                self.value = Some(cur);
                Ok(())
            },
            None => Ok(()),
        }
    }

    /// Replaces each selected node of the document by `null`.
    pub fn delete(&mut self) -> (r: Result<(), JsonPathError>)
        ensures
            match mut_select_outcome(old(self)@) {
                Err(e) => r matches Err(x) && x@ == e && final(self)@ == old(self)@,
                Ok(res) => match old(self)@.value {
                    None => r is Ok && final(self)@ == old(self)@,
                    Some(v) => {
                        let paths = target_paths(old(self)@.value, res);
                        &&& r is Ok ==> final(self)@.path == old(self)@.path && (final(self)@.value matches Some(w)
                            && replaced_all(v, paths, null_value, w))
                        &&& r is Err ==> (r matches Err(x) && x@ == ErrorModel::Halted(Halt::IndexOutOfBounds))
                            && replacement_halts(v, paths, null_value)
                            && final(self)@.path == old(self)@.path
                            && (final(self)@.value matches Some(mid) && halts_leaving(v, paths, null_value, mid))
                        &&& unique_keys(v) ==> r is Ok && (final(self)@.value matches Some(w)
                            && nulled_at(v, w, seq![], selected_positions(v, res)))
                    },
                },
            },
    {
        let r = self.replace_with(&null_value);
        proof {
            if let Ok(res) = mut_select_outcome(old(self)@) {
                if let Some(v) = old(self)@.value {
                    if unique_keys(v) {
                        law_delete_never_halts(v, res);
                        if let Some(w) = self@.value {
                            if r is Ok {
                                law_delete_nulls_selection(v, res, w);
                            }
                        }
                    }
                }
            }
        }
        r
    }
}

} // verus!
