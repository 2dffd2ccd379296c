//! References to the nodes that a selection holds, and their children.
use vstd::prelude::*;
use crate::json::JsonValue;

verus! {

/// A selected node: either a node of a document, known by its position
/// (child indices from the document's root) and its value, or the `null`
/// that a selection holds when a subscript selects nothing.
pub enum ValueRef<'a> {
    Node(Vec<usize>, &'a JsonValue),
    Null,
}

/// The mathematical form of a `ValueRef`.
pub enum RefModel {
    Node(Seq<usize>, JsonValue),
    Null,
}

impl<'a> View for ValueRef<'a> {
    type V = RefModel;

    open spec fn view(&self) -> RefModel {
        match self {
            ValueRef::Node(p, v) => RefModel::Node(p@, **v),
            ValueRef::Null => RefModel::Null,
        }
    }
}

/// The models of a sequence of node references.
pub open spec fn models<'a>(s: Seq<ValueRef<'a>>) -> Seq<RefModel> {
    s.map_values(|r: ValueRef<'a>| r@)
}

pub proof fn lemma_models_push<'a>(s: Seq<ValueRef<'a>>, x: ValueRef<'a>)
    ensures
        models(s.push(x)) == models(s).push(x@),
{
    assert(models(s.push(x)) =~= models(s).push(x@));
}

impl RefModel {
    /// The value of the referenced node.
    pub open spec fn value(self) -> JsonValue {
        match self {
            RefModel::Node(_, v) => v,
            RefModel::Null => JsonValue::Null,
        }
    }

    /// The `i`-th child of the referenced node.
    pub open spec fn child(self, i: int) -> RefModel {
        match self {
            RefModel::Node(p, v) => RefModel::Node(p.push(i as usize), v.kid(i)),
            RefModel::Null => RefModel::Null,
        }
    }

    /// All children of the referenced node, in document order.
    pub open spec fn children(self) -> Seq<RefModel> {
        Seq::new(self.value().kid_count(), |i: int| self.child(i))
    }

    /// Whether two references denote the same node: the same position, or
    /// both the `null` of an empty subscript.
    pub open spec fn same_node(self, other: RefModel) -> bool {
        match (self, other) {
            (RefModel::Node(p, _), RefModel::Node(q, _)) => p == q,
            (RefModel::Null, RefModel::Null) => true,
            _ => false,
        }
    }
}

/// Position of the first member of `m` whose key is `key`, if any: what
/// looking the key up in an object gives.
pub open spec fn find_key(m: Seq<(String, JsonValue)>, key: Seq<char>) -> Option<int> {
    if exists|i: int| 0 <= i < m.len() && m[i].0@ == key && forall|j: int| 0 <= j < i ==> #[trigger] m[j].0@ != key {
        Some(choose|i: int| 0 <= i < m.len() && m[i].0@ == key && forall|j: int| 0 <= j < i ==> #[trigger] m[j].0@ != key)
    } else {
        None
    }
}

pub proof fn lemma_find_key(m: Seq<(String, JsonValue)>, key: Seq<char>, i: int)
    requires
        0 <= i < m.len(),
        m[i].0@ == key,
        forall|j: int| 0 <= j < i ==> #[trigger] m[j].0@ != key,
    ensures
        find_key(m, key) == Some(i),
{
    assert(0 <= i < m.len() && m[i].0@ == key && forall|j: int| 0 <= j < i ==> #[trigger] m[j].0@ != key);
    let k = choose|k: int| 0 <= k < m.len() && m[k].0@ == key && forall|j: int| 0 <= j < k ==> #[trigger] m[j].0@ != key;
    assert(0 <= k < m.len() && m[k].0@ == key && forall|j: int| 0 <= j < k ==> #[trigger] m[j].0@ != key);
    if k < i {
        assert(m[k].0@ != key);
    } else if k > i {
        assert(m[i].0@ != key);
    }
}

pub proof fn lemma_find_key_some(m: Seq<(String, JsonValue)>, key: Seq<char>)
    ensures
        find_key(m, key) matches Some(i) ==> 0 <= i < m.len() && m[i].0@ == key,
{
}

/// Looks `key` up in the members of an object.
pub fn lookup(m: &Vec<(String, JsonValue)>, key: &String) -> (r: Option<usize>)
    ensures
        match r {
            Some(i) => find_key(m@, key@) == Some(i as int),
            None => find_key(m@, key@) is None,
        },
{
    let mut i: usize = 0;
    while i < m.len()
        invariant
            i <= m@.len(),
            forall|j: int| 0 <= j < i ==> #[trigger] m@[j].0@ != key@,
        decreases m@.len() - i,
    {
        if m[i].0 == *key {
            proof { lemma_find_key(m@, key@, i as int); }
            return Some(i);
        }
        i = i + 1;
    }
    assert(!exists|k: int| 0 <= k < m@.len() && m@[k].0@ == key@ && forall|j: int| 0 <= j < k ==> #[trigger] m@[j].0@ != key@);
    None
}

/// A copy of a path with one more step.
pub fn extend_path(p: &Vec<usize>, i: usize) -> (r: Vec<usize>)
    ensures
        r@ == p@.push(i),
{
    let mut r: Vec<usize> = Vec::new();
    for k in 0..p.len()
        invariant
            r@ == p@.take(k as int),
    {
        r.push(p[k]);
        assert(r@ =~= p@.take(k + 1));
    }
    assert(p@.take(p@.len() as int) =~= p@);
    r.push(i);
    r
}

impl<'a> ValueRef<'a> {
    /// A second reference to the same node.
    pub fn duplicate(&self) -> (r: ValueRef<'a>)
        ensures
            r@ == self@,
    {
        match self {
            ValueRef::Node(p, v) => {
                let mut q: Vec<usize> = Vec::new();
                for k in 0..p.len()
                    invariant
                        q@ == p@.take(k as int),
                {
                    q.push(p[k]);
                    assert(q@ =~= p@.take(k + 1));
                }
                assert(p@.take(p@.len() as int) =~= p@);
                ValueRef::Node(q, *v)
            },
            ValueRef::Null => ValueRef::Null,
        }
    }

    /// The value of the referenced node, `None` for the `null` of an empty
    /// subscript.
    pub fn node_value(&self) -> (r: Option<&'a JsonValue>)
        ensures
            match r {
                Some(v) => self@ is Node && *v == self@.value(),
                None => self@ is Null,
            },
    {
        match self {
            ValueRef::Node(_, v) => Some(*v),
            ValueRef::Null => None,
        }
    }

    /// Reference to the `i`-th child.
    pub fn child(&self, i: usize) -> (r: ValueRef<'a>)
        requires
            i < self@.value().kid_count(),
        ensures
            r@ == self@.child(i as int),
    {
        match self {
            ValueRef::Node(p, v) => {
                let q = extend_path(p, i);
                match *v {
                    JsonValue::Array(a) => ValueRef::Node(q, &a[i]),
                    JsonValue::Object(m) => ValueRef::Node(q, &m[i].1),
                    _ => ValueRef::Null,
                }
            },
            ValueRef::Null => ValueRef::Null,
        }
    }

    /// Appends references to all children of this node to `out`.
    pub fn push_children(&self, out: &mut Vec<ValueRef<'a>>)
        ensures
            models(final(out)@) == models(old(out)@) + self@.children(),
    {
        let n: usize = match self.node_value() {
            Some(JsonValue::Array(a)) => a.len(),
            Some(JsonValue::Object(m)) => m.len(),
            _ => 0,
        };
        assert(n == self@.value().kid_count());
        let ghost start = models(out@);
        for i in 0..n
            invariant
                n == self@.value().kid_count(),
                models(out@) == start + self@.children().take(i as int),
        {
            let c = self.child(i);
            proof { lemma_models_push(out@, c); }
            out.push(c);
            assert(models(out@) =~= start + self@.children().take(i + 1));
        }
        assert(self@.children().take(n as int) =~= self@.children());
    }

    /// Whether two references denote the same node.
    #[verifier::loop_isolation(false)]
    pub fn same_node(&self, other: &ValueRef) -> (r: bool)
        ensures
            r == self@.same_node(other@),
    {
        match (self, other) {
            (ValueRef::Node(p, _), ValueRef::Node(q, _)) => {
                if p.len() != q.len() {
                    return false;
                }
                for k in 0..p.len()
                    invariant
                        p@.len() == q@.len(),
                        forall|j: int| 0 <= j < k ==> p@[j] == q@[j],
                {
                    if p[k] != q[k] {
                        assert(p@[k as int] != q@[k as int]);
                        return false;
                    }
                }
                assert(p@ =~= q@);
                true
            },
            (ValueRef::Null, ValueRef::Null) => true,
            _ => false,
        }
    }
}

/// Copies of a sequence of node references.
pub fn duplicate_all<'a>(v: &Vec<ValueRef<'a>>) -> (r: Vec<ValueRef<'a>>)
    ensures
        models(r@) == models(v@),
{
    let mut r: Vec<ValueRef<'a>> = Vec::new();
    for k in 0..v.len()
        invariant
            models(r@) == models(v@).take(k as int),
    {
        let d = v[k].duplicate();
        proof { lemma_models_push(r@, d); }
        r.push(d);
        assert(models(r@) =~= models(v@).take(k + 1));
    }
    assert(models(v@).take(v@.len() as int) =~= models(v@));
    r
}

} // verus!
