//! Moves of a selection: to children, to members, to elements, and
//! through all descendants.
use vstd::prelude::*;
use crate::json::JsonValue;
use crate::refs::{ValueRef, RefModel, models, find_key, lookup, lemma_models_push};
use crate::token::strings_model;

verus! {

// ---------------------------------------------------------------------------
// Specifications

/// All children of all selected nodes.
pub open spec fn next_all(cur: Seq<RefModel>) -> Seq<RefModel> {
    cur.flat_map(children_fn())
}

pub open spec fn children_fn() -> spec_fn(RefModel) -> Seq<RefModel> {
    |r: RefModel| r.children()
}

/// The member named `key` of `r`, if `r` is an object that has one.
pub open spec fn member_of(r: RefModel, key: Seq<char>) -> Seq<RefModel> {
    match r.value() {
        JsonValue::Object(m) => match find_key(m@, key) {
            Some(i) => seq![r.child(i)],
            None => seq![],
        },
        _ => seq![],
    }
}

/// For each selected node in turn, its members named by `keys`, in the
/// order of `keys`.
pub open spec fn members_of(cur: Seq<RefModel>, keys: Seq<Seq<char>>) -> Seq<RefModel> {
    cur.flat_map(members_fn(keys))
}

pub open spec fn members_fn(keys: Seq<Seq<char>>) -> spec_fn(RefModel) -> Seq<RefModel> {
    |r: RefModel| keys.flat_map(member_fn(r))
}

pub open spec fn member_fn(r: RefModel) -> spec_fn(Seq<char>) -> Seq<RefModel> {
    |k: Seq<char>| member_of(r, k)
}

/// The array index that a possibly negative subscript `n` denotes in an
/// array of length `len`: `n` itself when non-negative, else `len + n`,
/// which wraps to a number past every index when it is negative.
pub open spec fn abs_index_spec(n: int, len: int) -> int {
    if n < 0 {
        if n + len >= 0 { n + len } else { usize::MAX + 1 + n + len }
    } else {
        n
    }
}

/// The element of array `r` at subscript `n`, if there is one.
pub open spec fn element_at(r: RefModel, n: int) -> Seq<RefModel> {
    match r.value() {
        JsonValue::Array(a) => {
            let j = abs_index_spec(n, a@.len() as int);
            if 0 <= j < a@.len() { seq![r.child(j)] } else { seq![] }
        },
        _ => seq![],
    }
}

/// For each selected array, its element at subscript `n`.
pub open spec fn elements_at(cur: Seq<RefModel>, n: int) -> Seq<RefModel> {
    cur.flat_map(element_fn(n))
}

pub open spec fn element_fn(n: int) -> spec_fn(RefModel) -> Seq<RefModel> {
    |r: RefModel| element_at(r, n)
}

/// What a walk collects at each node it passes.
pub enum WalkKind {
    /// All children of the node.
    Children,
    /// The node itself, if it is an object with a member of this name.
    ObjectsWithKey(Seq<char>),
    /// The member of this name, if the node is an object that has one.
    MemberValue(Seq<char>),
}

pub open spec fn collect_at(f: WalkKind, r: RefModel) -> Seq<RefModel> {
    match f {
        WalkKind::Children => r.children(),
        WalkKind::ObjectsWithKey(k) => match r.value() {
            JsonValue::Object(m) => if find_key(m@, k) is Some { seq![r] } else { seq![] },
            _ => seq![],
        },
        WalkKind::MemberValue(k) => member_of(r, k),
    }
}

/// What a walk collects from the subtree of `v` (at position `p`): first at
/// `v`, then from each child's subtree in document order.
pub open spec fn walk_tree(f: WalkKind, p: Seq<usize>, v: JsonValue) -> Seq<RefModel>
    decreases v, 1nat,
{
    collect_at(f, RefModel::Node(p, v)) + walk_kids(f, p, v).flatten()
}

/// For each child of `v` in document order, what a walk collects from its subtree.
pub open spec fn walk_kids(f: WalkKind, p: Seq<usize>, v: JsonValue) -> Seq<Seq<RefModel>>
    decreases v, 0nat,
{
    match v {
        JsonValue::Array(a) => Seq::new(
            a@.len(),
            |i: int| if 0 <= i < a@.len() { walk_tree(f, p.push(i as usize), a@[i]) } else { seq![] },
        ),
        JsonValue::Object(m) => Seq::new(
            m@.len(),
            |i: int| if 0 <= i < m@.len() { walk_tree(f, p.push(i as usize), m@[i].1) } else { seq![] },
        ),
        _ => seq![],
    }
}

pub open spec fn walk_from(f: WalkKind, r: RefModel) -> Seq<RefModel> {
    match r {
        RefModel::Node(p, v) => walk_tree(f, p, v),
        RefModel::Null => seq![],
    }
}

/// A walk through all nodes under (and including) each selected node.
pub open spec fn walk(f: WalkKind, cur: Seq<RefModel>) -> Seq<RefModel> {
    cur.flat_map(walk_fn(f))
}

pub open spec fn walk_fn(f: WalkKind) -> spec_fn(RefModel) -> Seq<RefModel> {
    |r: RefModel| walk_from(f, r)
}

/// Objects with a member named `key`, found in the node itself or, through
/// arrays only, among its elements, their elements, and so on.
pub open spec fn objects_with_key(key: Seq<char>, p: Seq<usize>, v: JsonValue) -> Seq<RefModel>
    decreases v, 1nat,
{
    match v {
        JsonValue::Object(m) => if find_key(m@, key) is Some { seq![RefModel::Node(p, v)] } else { seq![] },
        JsonValue::Array(a) => objects_with_key_kids(key, p, v).flatten(),
        _ => seq![],
    }
}

pub open spec fn objects_with_key_kids(key: Seq<char>, p: Seq<usize>, v: JsonValue) -> Seq<Seq<RefModel>>
    decreases v, 0nat,
{
    match v {
        JsonValue::Array(a) => Seq::new(
            a@.len(),
            |i: int| if 0 <= i < a@.len() { objects_with_key(key, p.push(i as usize), a@[i]) } else { seq![] },
        ),
        _ => seq![],
    }
}

pub open spec fn objects_with_key_from(key: Seq<char>, r: RefModel) -> Seq<RefModel> {
    match r {
        RefModel::Node(p, v) => objects_with_key(key, p, v),
        RefModel::Null => seq![],
    }
}

/// `s` without the nodes that already occur earlier in it.
pub open spec fn dedup(s: Seq<RefModel>) -> Seq<RefModel>
    decreases s.len(),
{
    if s.len() == 0 {
        seq![]
    } else if exists|j: int| 0 <= j < s.len() - 1 && (#[trigger] s[j]).same_node(s.last()) {
        dedup(s.drop_last())
    } else {
        dedup(s.drop_last()).push(s.last())
    }
}

/// The objects among the selected nodes, searched through arrays, that
/// have a member named `key`, each object once.
pub open spec fn objects_with_key_in(key: Seq<char>, cur: Seq<RefModel>) -> Seq<RefModel> {
    dedup(cur.flat_map(owk_fn(key)))
}

pub open spec fn owk_fn(key: Seq<char>) -> spec_fn(RefModel) -> Seq<RefModel> {
    |r: RefModel| objects_with_key_from(key, r)
}


// ---------------------------------------------------------------------------
// Lemmas

pub proof fn lemma_flat_map_step<A, B>(s: Seq<A>, f: spec_fn(A) -> Seq<B>, i: int)
    requires
        0 <= i < s.len(),
    ensures
        s.take(i + 1).flat_map(f) == s.take(i).flat_map(f) + f(s[i]),
{
    s.lemma_flat_map_take_append(f, i);
}

pub proof fn lemma_flatten_step<A>(s: Seq<Seq<A>>, i: int)
    requires
        0 <= i < s.len(),
    ensures
        s.take(i + 1).flatten() == s.take(i).flatten() + s[i],
{
    assert(s.take(i + 1) =~= s.take(i).push(s[i]));
    s.take(i).lemma_flatten_push(s[i]);
}

pub proof fn lemma_take_all<A>(s: Seq<A>)
    ensures
        s.take(s.len() as int) == s,
{
    assert(s.take(s.len() as int) =~= s);
}

// ---------------------------------------------------------------------------
// Executable moves

/// What a walk collects at each node it passes (see `WalkKind`).
pub enum WalkFun {
    Children,
    ObjectsWithKey(String),
    MemberValue(String),
}

impl View for WalkFun {
    type V = WalkKind;

    open spec fn view(&self) -> WalkKind {
        match self {
            WalkFun::Children => WalkKind::Children,
            WalkFun::ObjectsWithKey(k) => WalkKind::ObjectsWithKey(k@),
            WalkFun::MemberValue(k) => WalkKind::MemberValue(k@),
        }
    }
}

/// Appends the member named `key` of `r`, if there is one.
pub fn push_member<'a>(r: &ValueRef<'a>, key: &String, out: &mut Vec<ValueRef<'a>>)
    ensures
        models(final(out)@) == models(old(out)@) + member_of(r@, key@),
{
    if let Some(JsonValue::Object(m)) = r.node_value() {
        if let Some(i) = lookup(m, key) {
            let c = r.child(i);
            proof { lemma_models_push(out@, c); }
            out.push(c);
            assert(models(out@) =~= models(old(out)@) + member_of(r@, key@));
            return;
        }
    }
    assert(models(out@) =~= models(old(out)@) + member_of(r@, key@));
}

/// The array index that subscript `n` denotes in an array of length `len`.
pub fn abs_index(n: isize, len: usize) -> (r: usize)
    ensures
        r == abs_index_spec(n as int, len as int),
{
    if n < 0 {
        if len > isize::MAX as usize {
            // n + len >= 0
            ((len - (-(n + 1)) as usize) - 1) as usize
        } else {
            let s: isize = n + len as isize;
            if s >= 0 {
                s as usize
            } else {
                usize::MAX - ((-(s + 1)) as usize)
            }
        }
    } else {
        n as usize
    }
}

/// Appends the element of array `r` at subscript `n`, if there is one.
pub fn push_element<'a>(r: &ValueRef<'a>, n: isize, out: &mut Vec<ValueRef<'a>>)
    ensures
        models(final(out)@) == models(old(out)@) + element_at(r@, n as int),
{
    if let Some(JsonValue::Array(a)) = r.node_value() {
        let j = abs_index(n, a.len());
        if j < a.len() {
            let c = r.child(j);
            proof { lemma_models_push(out@, c); }
            out.push(c);
            assert(models(out@) =~= models(old(out)@) + element_at(r@, n as int));
            return;
        }
    }
    assert(models(out@) =~= models(old(out)@) + element_at(r@, n as int));
}

/// Appends what a walk collects at node `r`.
pub fn collect_here<'a>(f: &WalkFun, r: &ValueRef<'a>, out: &mut Vec<ValueRef<'a>>)
    ensures
        models(final(out)@) == models(old(out)@) + collect_at(f@, r@),
{
    match f {
        WalkFun::Children => r.push_children(out),
        WalkFun::ObjectsWithKey(k) => {
            if let Some(JsonValue::Object(m)) = r.node_value() {
                if lookup(m, k).is_some() {
                    let d = r.duplicate();
                    proof { lemma_models_push(out@, d); }
                    out.push(d);
                    assert(models(out@) =~= models(old(out)@) + collect_at(f@, r@));
                    return;
                }
            }
            assert(models(out@) =~= models(old(out)@) + collect_at(f@, r@));
        },
        WalkFun::MemberValue(k) => push_member(r, k, out),
    }
}

/// Appends what a walk collects from the subtree of `v` at position `p`.
pub fn walk_subtree<'a>(f: &WalkFun, p: &Vec<usize>, v: &'a JsonValue, out: &mut Vec<ValueRef<'a>>)
    ensures
        models(final(out)@) == models(old(out)@) + walk_tree(f@, p@, *v),
    decreases v,
{
    let here = ValueRef::Node(extend_path_copy(p), v);
    collect_here(f, &here, out);
    let ghost mid = models(out@);
    let ghost kids = walk_kids(f@, p@, *v);
    match v {
        JsonValue::Array(a) => {
            for i in 0..a.len()
                invariant
                    *v == JsonValue::Array(*a),
                    kids == walk_kids(f@, p@, *v),
                    models(out@) == mid + kids.take(i as int).flatten(),
            {
                let q = crate::refs::extend_path(p, i);
                proof {
                    assert(decreases_to!(*v => (*v)->Array_0));
                    assert(decreases_to!(*a => a@[i as int]));
                }
                walk_subtree(f, &q, &a[i], out);
                proof { lemma_flatten_step(kids, i as int); }
            }
            proof { lemma_take_all(kids); }
        },
        JsonValue::Object(m) => {
            for i in 0..m.len()
                invariant
                    *v == JsonValue::Object(*m),
                    kids == walk_kids(f@, p@, *v),
                    models(out@) == mid + kids.take(i as int).flatten(),
            {
                let q = crate::refs::extend_path(p, i);
                proof {
                    assert(decreases_to!(*v => (*v)->Object_0));
                    assert(decreases_to!(*m => m@[i as int]));
                    assert(decreases_to!(m@[i as int] => m@[i as int].1));
                }
                walk_subtree(f, &q, &m[i].1, out);
                proof { lemma_flatten_step(kids, i as int); }
            }
            proof { lemma_take_all(kids); }
        },
        _ => {
            assert(kids.flatten() =~= seq![]);
        },
    }
    assert(models(out@) =~= models(old(out)@) + walk_tree(f@, p@, *v));
}

fn extend_path_copy(p: &Vec<usize>) -> (r: Vec<usize>)
    ensures
        r@ == p@,
{
    let mut r: Vec<usize> = Vec::new();
    for k in 0..p.len()
        invariant
            r@ == p@.take(k as int),
    {
        r.push(p[k]);
        assert(r@ =~= p@.take(k + 1));
    }
    proof { lemma_take_all(p@); }
    r
}

/// A walk through all nodes under (and including) each selected node.
pub fn walk_refs<'a>(f: &WalkFun, cur: &Vec<ValueRef<'a>>) -> (r: Vec<ValueRef<'a>>)
    ensures
        models(r@) == walk(f@, models(cur@)),
{
    let mut out: Vec<ValueRef<'a>> = Vec::new();
    for i in 0..cur.len()
        invariant
            models(out@) == models(cur@).take(i as int).flat_map(walk_fn(f@)),
    {
        match &cur[i] {
            ValueRef::Node(p, v) => walk_subtree(f, p, v, &mut out),
            ValueRef::Null => {},
        }
        proof { lemma_flat_map_step(models(cur@), walk_fn(f@), i as int); }
    }
    proof { lemma_take_all(models(cur@)); }
    out
}

/// All children of all selected nodes.
pub fn next_all_refs<'a>(cur: &Vec<ValueRef<'a>>) -> (r: Vec<ValueRef<'a>>)
    ensures
        models(r@) == next_all(models(cur@)),
{
    let mut out: Vec<ValueRef<'a>> = Vec::new();
    for i in 0..cur.len()
        invariant
            models(out@) == models(cur@).take(i as int).flat_map(children_fn()),
    {
        cur[i].push_children(&mut out);
        proof { lemma_flat_map_step(models(cur@), children_fn(), i as int); }
    }
    proof { lemma_take_all(models(cur@)); }
    out
}

/// For each selected node, its members named by `keys`.
pub fn members_refs<'a>(cur: &Vec<ValueRef<'a>>, keys: &Vec<String>) -> (r: Vec<ValueRef<'a>>)
    ensures
        models(r@) == members_of(models(cur@), strings_model(keys@)),
{
    let ghost ks = strings_model(keys@);
    let mut out: Vec<ValueRef<'a>> = Vec::new();
    for i in 0..cur.len()
        invariant
            ks == strings_model(keys@),
            models(out@) == models(cur@).take(i as int).flat_map(members_fn(ks)),
    {
        let ghost before = models(out@);
        let r = &cur[i];
        for j in 0..keys.len()
            invariant
                ks == strings_model(keys@),
                models(out@) == before + ks.take(j as int).flat_map(member_fn(r@)),
        {
            push_member(r, &keys[j], &mut out);
            proof { lemma_flat_map_step(ks, member_fn(r@), j as int); }
        }
        proof {
            lemma_take_all(ks);
            lemma_flat_map_step(models(cur@), members_fn(ks), i as int);
        }
    }
    proof { lemma_take_all(models(cur@)); }
    out
}

/// For each selected array, its element at subscript `n`.
pub fn elements_refs<'a>(cur: &Vec<ValueRef<'a>>, n: isize) -> (r: Vec<ValueRef<'a>>)
    ensures
        models(r@) == elements_at(models(cur@), n as int),
{
    let mut out: Vec<ValueRef<'a>> = Vec::new();
    for i in 0..cur.len()
        invariant
            models(out@) == models(cur@).take(i as int).flat_map(element_fn(n as int)),
    {
        push_element(&cur[i], n, &mut out);
        proof { lemma_flat_map_step(models(cur@), element_fn(n as int), i as int); }
    }
    proof { lemma_take_all(models(cur@)); }
    out
}


/// Appends the objects with a member named `key` found in the subtree of
/// `v` (at position `p`), searching through arrays only.
pub fn objects_with_key_subtree<'a>(key: &String, p: &Vec<usize>, v: &'a JsonValue, out: &mut Vec<ValueRef<'a>>)
    ensures
        models(final(out)@) == models(old(out)@) + objects_with_key(key@, p@, *v),
    decreases v,
{
    match v {
        JsonValue::Object(m) => {
            if lookup(m, key).is_some() {
                let d = ValueRef::Node(extend_path_copy(p), v);
                proof { lemma_models_push(out@, d); }
                out.push(d);
            }
            assert(models(out@) =~= models(old(out)@) + objects_with_key(key@, p@, *v));
        },
        JsonValue::Array(a) => {
            let ghost kids = objects_with_key_kids(key@, p@, *v);
            for i in 0..a.len()
                invariant
                    *v == JsonValue::Array(*a),
                    kids == objects_with_key_kids(key@, p@, *v),
                    models(out@) == models(old(out)@) + kids.take(i as int).flatten(),
            {
                let q = crate::refs::extend_path(p, i);
                proof {
                    assert(decreases_to!(*v => (*v)->Array_0));
                    assert(decreases_to!(*a => a@[i as int]));
                }
                objects_with_key_subtree(key, &q, &a[i], out);
                proof { lemma_flatten_step(kids, i as int); }
            }
            proof { lemma_take_all(kids); }
        },
        _ => {
            assert(models(out@) =~= models(old(out)@) + objects_with_key(key@, p@, *v));
        },
    }
}

/// `s` without the nodes that already occur earlier in it.
pub fn dedup_refs<'a>(s: Vec<ValueRef<'a>>) -> (r: Vec<ValueRef<'a>>)
    ensures
        models(r@) == dedup(models(s@)),
{
    let mut out: Vec<ValueRef<'a>> = Vec::new();
    let ghost ms = models(s@);
    for i in 0..s.len()
        invariant
            ms == models(s@),
            models(out@) == dedup(ms.take(i as int)),
    {
        let mut seen = false;
        let mut j: usize = 0;
        while j < i
            invariant
                j <= i < s@.len(),
                ms == models(s@),
                seen == exists|k: int| 0 <= k < j && (#[trigger] ms[k]).same_node(ms[i as int]),
            decreases i - j,
        {
            assert(ms[j as int] == s@[j as int]@);
            assert(ms[i as int] == s@[i as int]@);
            if s[j].same_node(&s[i]) {
                seen = true;
            }
            j = j + 1;
        }
        proof {
            let t = ms.take(i + 1);
            assert(t.drop_last() =~= ms.take(i as int));
            assert(t.last() == ms[i as int]);
            assert forall|k: int| 0 <= k < t.len() - 1 implies t[k] == ms[k] by {}
            if seen {
                let k = choose|k: int| 0 <= k < i && (#[trigger] ms[k]).same_node(ms[i as int]);
                assert(t[k].same_node(t.last()));
            }
        }
        if !seen {
            let d = s[i].duplicate();
            proof { lemma_models_push(out@, d); }
            out.push(d);
        }
    }
    proof { lemma_take_all(ms); }
    out
}

/// The objects among the selected nodes, searched through arrays, that
/// have a member named `key`, each object once.
pub fn objects_with_key_refs<'a>(key: &String, cur: &Vec<ValueRef<'a>>) -> (r: Vec<ValueRef<'a>>)
    ensures
        models(r@) == objects_with_key_in(key@, models(cur@)),
{
    let mut all: Vec<ValueRef<'a>> = Vec::new();
    for i in 0..cur.len()
        invariant
            models(all@) == models(cur@).take(i as int).flat_map(owk_fn(key@)),
    {
        match &cur[i] {
            ValueRef::Node(p, v) => objects_with_key_subtree(key, p, v, &mut all),
            ValueRef::Null => {},
        }
        proof { lemma_flat_map_step(models(cur@), owk_fn(key@), i as int); }
    }
    proof { lemma_take_all(models(cur@)); }
    dedup_refs(all)
}


// ---------------------------------------------------------------------------
// Slices and unions of array elements

/// `from, from + step, ...` up to but not including `to`.
pub open spec fn stepped(from: int, to: int, step: int) -> Seq<int>
    decreases if from < to { to - from } else { 0 },
{
    if step <= 0 || from >= to {
        seq![]
    } else {
        seq![from] + stepped(from + step, to, step)
    }
}

/// The element of array `r` at index `i`, if in range.
pub open spec fn element_index(r: RefModel, len: int) -> spec_fn(int) -> Seq<RefModel> {
    |i: int| if 0 <= i < len { seq![r.child(i)] } else { seq![] }
}

/// The elements of array `r` picked by a slice `[from:to:step]`.
pub open spec fn slice_of(r: RefModel, from: Option<isize>, to: Option<isize>, step: int) -> Seq<RefModel> {
    match r.value() {
        JsonValue::Array(a) => {
            let len = a@.len() as int;
            let f = match from { Some(x) => abs_index_spec(x as int, len), None => 0 };
            let t = match to { Some(x) => abs_index_spec(x as int, len), None => len };
            stepped(f, t, step).flat_map(element_index(r, len))
        },
        _ => seq![],
    }
}

pub open spec fn slice_fn(from: Option<isize>, to: Option<isize>, step: int) -> spec_fn(RefModel) -> Seq<RefModel> {
    |r: RefModel| slice_of(r, from, to, step)
}

/// For each selected array, the elements picked by the slice.
pub open spec fn slices(cur: Seq<RefModel>, from: Option<isize>, to: Option<isize>, step: int) -> Seq<RefModel> {
    cur.flat_map(slice_fn(from, to, step))
}

/// Whether some selected node is an array.
pub open spec fn has_array(cur: Seq<RefModel>) -> bool {
    exists|i: int| 0 <= i < cur.len() && (#[trigger] cur[i]).value() is Array
}

pub open spec fn subscript_fn(r: RefModel) -> spec_fn(isize) -> Seq<RefModel> {
    |n: isize| element_at(r, n as int)
}

pub open spec fn union_fn(ix: Seq<isize>) -> spec_fn(RefModel) -> Seq<RefModel> {
    |r: RefModel| ix.flat_map(subscript_fn(r))
}

/// For each selected array, its elements at the subscripts `ix`, in order.
pub open spec fn unions(cur: Seq<RefModel>, ix: Seq<isize>) -> Seq<RefModel> {
    cur.flat_map(union_fn(ix))
}

pub proof fn lemma_flat_map_cons<A, B>(x: A, rest: Seq<A>, h: spec_fn(A) -> Seq<B>)
    ensures
        (seq![x] + rest).flat_map(h) == h(x) + rest.flat_map(h),
{
    let s = seq![x] + rest;
    assert(s.map_values(h).drop_first() =~= rest.map_values(h));
    assert(s.map_values(h).first() == h(x));
}

/// A slice picks nothing from index `len` of an array of length `len` on.
pub proof fn lemma_stepped_past_end(r: RefModel, len: int, i: int, t: int, step: int)
    requires
        i >= len || i >= t,
        step > 0,
    ensures
        stepped(i, t, step).flat_map(element_index(r, len)) == Seq::<RefModel>::empty(),
    decreases if i < t { t - i } else { 0 },
{
    let h = element_index(r, len);
    if i < t {
        lemma_flat_map_cons(i, stepped(i + step, t, step), h);
        lemma_stepped_past_end(r, len, i + step, t, step);
        assert(h(i) =~= Seq::<RefModel>::empty());
        assert(stepped(i, t, step) =~= seq![i] + stepped(i + step, t, step));
    } else {
        assert(stepped(i, t, step) =~= seq![]);
    }
    assert(stepped(i, t, step).flat_map(h) =~= Seq::<RefModel>::empty());
}

/// Appends the elements of array `r` picked by the slice.
pub fn push_slice<'a>(r: &ValueRef<'a>, from: Option<isize>, to: Option<isize>, step: usize, out: &mut Vec<ValueRef<'a>>)
    requires
        step > 0,
    ensures
        models(final(out)@) == models(old(out)@) + slice_of(r@, from, to, step as int),
{
    if let Some(JsonValue::Array(a)) = r.node_value() {
        let len = a.len();
        let f: usize = match from { Some(x) => abs_index(x, len), None => 0 };
        let t: usize = match to { Some(x) => abs_index(x, len), None => len };
        let ghost h = element_index(r@, len as int);
        let mut i: usize = f;
        loop
            invariant_except_break
                models(out@) + stepped(i as int, t as int, step as int).flat_map(h)
                    == models(old(out)@) + stepped(f as int, t as int, step as int).flat_map(h),
            invariant
                step > 0,
                len == a@.len(),
                r@.value() == JsonValue::Array(*a),
                h == element_index(r@, len as int),
            ensures
                models(out@) == models(old(out)@) + stepped(f as int, t as int, step as int).flat_map(h),
            decreases if i < t { t - i } else { 0 },
        {
            if i >= t || i >= len {
                proof { lemma_stepped_past_end(r@, len as int, i as int, t as int, step as int); }
                assert(seq![].flat_map(h) =~= Seq::<RefModel>::empty());
                assert(models(out@) =~= models(old(out)@) + stepped(f as int, t as int, step as int).flat_map(h));
                break;
            }
            let ghost before = models(out@);
            proof {
                lemma_flat_map_cons(i as int, stepped(i + step, t as int, step as int), h);
            }
            if i < len {
                let c = r.child(i);
                proof { lemma_models_push(out@, c); }
                out.push(c);
            }
            assert(models(out@) == before + h(i as int));
            match i.checked_add(step) {
                Some(n) => {
                    i = n;
                },
                None => {
                    assert(stepped(i + step, t as int, step as int) =~= seq![]);
                    assert(seq![].flat_map(h) =~= Seq::<RefModel>::empty());
                    assert(models(out@) =~= models(old(out)@) + stepped(f as int, t as int, step as int).flat_map(h));
                    break;
                },
            }
        }
        return;
    }
    assert(models(out@) =~= models(old(out)@) + slice_of(r@, from, to, step as int));
}

/// For each selected array, the elements picked by the slice.
pub fn slices_refs<'a>(cur: &Vec<ValueRef<'a>>, from: Option<isize>, to: Option<isize>, step: usize) -> (r: Vec<ValueRef<'a>>)
    requires
        step > 0,
    ensures
        models(r@) == slices(models(cur@), from, to, step as int),
{
    let mut out: Vec<ValueRef<'a>> = Vec::new();
    for i in 0..cur.len()
        invariant
            step > 0,
            models(out@) == models(cur@).take(i as int).flat_map(slice_fn(from, to, step as int)),
    {
        push_slice(&cur[i], from, to, step, &mut out);
        proof { lemma_flat_map_step(models(cur@), slice_fn(from, to, step as int), i as int); }
    }
    proof { lemma_take_all(models(cur@)); }
    out
}

/// Whether some selected node is an array.
pub fn any_array<'a>(cur: &Vec<ValueRef<'a>>) -> (r: bool)
    ensures
        r == has_array(models(cur@)),
{
    for i in 0..cur.len()
        invariant
            forall|k: int| 0 <= k < i ==> !((#[trigger] models(cur@)[k]).value() is Array),
    {
        assert(models(cur@)[i as int] == cur@[i as int]@);
        if let Some(JsonValue::Array(_)) = cur[i].node_value() {
            return true;
        }
    }
    false
}

/// For each selected array, its elements at the subscripts `ix`.
pub fn unions_refs<'a>(cur: &Vec<ValueRef<'a>>, ix: &Vec<isize>) -> (r: Vec<ValueRef<'a>>)
    ensures
        models(r@) == unions(models(cur@), ix@),
{
    let mut out: Vec<ValueRef<'a>> = Vec::new();
    for i in 0..cur.len()
        invariant
            models(out@) == models(cur@).take(i as int).flat_map(union_fn(ix@)),
    {
        let ghost before = models(out@);
        let r = &cur[i];
        for j in 0..ix.len()
            invariant
                models(out@) == before + ix@.take(j as int).flat_map(subscript_fn(r@)),
        {
            push_element(r, ix[j], &mut out);
            proof { lemma_flat_map_step(ix@, subscript_fn(r@), j as int); }
        }
        proof {
            lemma_take_all(ix@);
            lemma_flat_map_step(models(cur@), union_fn(ix@), i as int);
        }
    }
    proof { lemma_take_all(models(cur@)); }
    out
}

} // verus!
