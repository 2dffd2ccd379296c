//! Filters on sequences: keeping the elements that pass a test, and
//! dropping elements equal to an earlier one.
use vstd::prelude::*;

verus! {

/// The elements of `s` that pass `p`, in order.
pub open spec fn keep<A>(s: Seq<A>, p: spec_fn(A) -> bool) -> Seq<A>
    decreases s.len(),
{
    if s.len() == 0 {
        seq![]
    } else if p(s.last()) {
        keep(s.drop_last(), p).push(s.last())
    } else {
        keep(s.drop_last(), p)
    }
}

/// `s` without each element that `eq` finds equal to an earlier element
/// (`eq(earlier, later)`).
pub open spec fn unique_by<A>(s: Seq<A>, eq: spec_fn(A, A) -> bool) -> Seq<A>
    decreases s.len(),
{
    if s.len() == 0 {
        seq![]
    } else if exists|j: int| 0 <= j < s.len() - 1 && eq(#[trigger] s[j], s.last()) {
        unique_by(s.drop_last(), eq)
    } else {
        unique_by(s.drop_last(), eq).push(s.last())
    }
}

pub proof fn lemma_keep_step<A>(s: Seq<A>, p: spec_fn(A) -> bool, i: int)
    requires
        0 <= i < s.len(),
    ensures
        keep(s.take(i + 1), p) == if p(s[i]) { keep(s.take(i), p).push(s[i]) } else { keep(s.take(i), p) },
{
    assert(s.take(i + 1).drop_last() =~= s.take(i));
}

/// Every element that `keep` gives is an element of its input.
pub proof fn lemma_keep_subset<A>(s: Seq<A>, p: spec_fn(A) -> bool)
    ensures
        forall|k: int| 0 <= k < keep(s, p).len() ==> #[trigger] s.contains(keep(s, p)[k]),
    decreases s.len(),
{
    if s.len() > 0 {
        lemma_keep_subset(s.drop_last(), p);
        assert forall|k: int| 0 <= k < keep(s, p).len() implies #[trigger] s.contains(keep(s, p)[k]) by {
            if k < keep(s.drop_last(), p).len() {
                let x = keep(s.drop_last(), p)[k];
                assert(s.drop_last().contains(x));
                let i = choose|i: int| 0 <= i < s.drop_last().len() && s.drop_last()[i] == x;
                assert(s[i] == x);
            } else {
                assert(s[s.len() - 1] == s.last());
            }
        }
    }
}

/// Every element that `unique_by` gives is an element of its input.
pub proof fn lemma_unique_subset<A>(s: Seq<A>, eq: spec_fn(A, A) -> bool)
    ensures
        forall|k: int| 0 <= k < unique_by(s, eq).len() ==> #[trigger] s.contains(unique_by(s, eq)[k]),
    decreases s.len(),
{
    if s.len() > 0 {
        lemma_unique_subset(s.drop_last(), eq);
        assert forall|k: int| 0 <= k < unique_by(s, eq).len() implies #[trigger] s.contains(unique_by(s, eq)[k]) by {
            if k < unique_by(s.drop_last(), eq).len() {
                let x = unique_by(s.drop_last(), eq)[k];
                assert(s.drop_last().contains(x));
                let i = choose|i: int| 0 <= i < s.drop_last().len() && s.drop_last()[i] == x;
                assert(s[i] == x);
            } else {
                assert(s[s.len() - 1] == s.last());
            }
        }
    }
}

/// `keep` commutes with a map that carries the test along.
pub proof fn lemma_keep_map<A, B>(s: Seq<A>, p: spec_fn(A) -> bool, g: spec_fn(A) -> B, q: spec_fn(B) -> bool)
    requires
        forall|i: int| 0 <= i < s.len() ==> p(#[trigger] s[i]) == q(g(s[i])),
    ensures
        keep(s, p).map_values(g) == keep(s.map_values(g), q),
    decreases s.len(),
{
    if s.len() > 0 {
        assert(s.map_values(g).drop_last() =~= s.drop_last().map_values(g));
        lemma_keep_map(s.drop_last(), p, g, q);
        assert(p(s[s.len() - 1]) == q(g(s[s.len() - 1])));
        assert(keep(s, p).map_values(g) =~= keep(s.map_values(g), q));
    } else {
        assert(keep(s, p).map_values(g) =~= keep(s.map_values(g), q));
    }
}

/// `unique_by` commutes with a map that carries the equality along.
pub proof fn lemma_unique_map<A, B>(s: Seq<A>, ea: spec_fn(A, A) -> bool, g: spec_fn(A) -> B, eb: spec_fn(B, B) -> bool)
    requires
        forall|i: int, j: int| 0 <= i < s.len() && 0 <= j < s.len() ==> ea(#[trigger] s[i], #[trigger] s[j]) == eb(g(s[i]), g(s[j])),
    ensures
        unique_by(s, ea).map_values(g) == unique_by(s.map_values(g), eb),
    decreases s.len(),
{
    let t = s.map_values(g);
    if s.len() > 0 {
        assert(t.drop_last() =~= s.drop_last().map_values(g));
        lemma_unique_map(s.drop_last(), ea, g, eb);
        let n = s.len() - 1;
        assert((exists|j: int| 0 <= j < s.len() - 1 && ea(#[trigger] s[j], s.last())) == (exists|j: int|
            0 <= j < t.len() - 1 && eb(#[trigger] t[j], t.last()))) by {
            if exists|j: int| 0 <= j < s.len() - 1 && ea(#[trigger] s[j], s.last()) {
                let j = choose|j: int| 0 <= j < s.len() - 1 && ea(#[trigger] s[j], s.last());
                assert(ea(s[j], s[n]) == eb(g(s[j]), g(s[n])));
                assert(eb(t[j], t.last()));
            }
            if exists|j: int| 0 <= j < t.len() - 1 && eb(#[trigger] t[j], t.last()) {
                let j = choose|j: int| 0 <= j < t.len() - 1 && eb(#[trigger] t[j], t.last());
                assert(ea(s[j], s[n]) == eb(g(s[j]), g(s[n])));
                assert(ea(s[j], s.last()));
            }
        }
        assert(unique_by(s, ea).map_values(g) =~= unique_by(t, eb));
    } else {
        assert(unique_by(s, ea).map_values(g) =~= unique_by(t, eb));
    }
}

/// No element that `unique_by` gives is `eq` to a later one it gives.
pub proof fn lemma_unique_distinct<A>(s: Seq<A>, eq: spec_fn(A, A) -> bool)
    ensures
        forall|i: int, j: int| 0 <= i < j < unique_by(s, eq).len()
            ==> !eq(#[trigger] unique_by(s, eq)[i], #[trigger] unique_by(s, eq)[j]),
    decreases s.len(),
{
    if s.len() > 0 {
        let init = s.drop_last();
        lemma_unique_distinct(init, eq);
        lemma_unique_subset(init, eq);
        if !exists|j: int| 0 <= j < s.len() - 1 && eq(#[trigger] s[j], s.last()) {
            let u = unique_by(init, eq);
            let v = u.push(s.last());
            assert forall|i: int, j: int| 0 <= i < j < v.len() implies !eq(#[trigger] v[i], #[trigger] v[j]) by {
                assert(v[i] == u[i]);
                if j == u.len() {
                    assert(init.contains(u[i]));
                    let k = choose|k: int| 0 <= k < init.len() && init[k] == u[i];
                    assert(s[k] == u[i]);
                } else {
                    assert(v[j] == u[j]);
                }
            }
        }
    }
}

/// Every element that passes the test is kept.
pub proof fn lemma_keep_contains<A>(s: Seq<A>, p: spec_fn(A) -> bool, x: A)
    requires
        s.contains(x),
        p(x),
    ensures
        keep(s, p).contains(x),
    decreases s.len(),
{
    if s.last() == x {
        assert(keep(s, p).last() == x);
    } else {
        let j = choose|j: int| 0 <= j < s.len() && s[j] == x;
        assert(s.drop_last()[j] == x);
        lemma_keep_contains(s.drop_last(), p, x);
        let k = choose|k: int| 0 <= k < keep(s.drop_last(), p).len() && keep(s.drop_last(), p)[k] == x;
        if p(s.last()) {
            assert(keep(s, p)[k] == x);
        }
    }
}

/// For a transitive `eq`, each element of `s` is kept by `unique_by`, or
/// some kept element is `eq` to it.
pub proof fn lemma_unique_covers<A>(s: Seq<A>, eq: spec_fn(A, A) -> bool, i: int)
    requires
        0 <= i < s.len(),
        forall|x: A, y: A, z: A| #[trigger] eq(x, y) && #[trigger] eq(y, z) ==> eq(x, z),
    ensures
        unique_by(s, eq).contains(s[i]) || exists|k: int| 0 <= k < unique_by(s, eq).len() && eq(#[trigger] unique_by(s, eq)[k], s[i]),
    decreases s.len(),
{
    let init = s.drop_last();
    let u0 = unique_by(init, eq);
    let u = unique_by(s, eq);
    let dropped = exists|j: int| 0 <= j < s.len() - 1 && eq(#[trigger] s[j], s.last());
    assert(forall|k: int| 0 <= k < u0.len() ==> #[trigger] u0[k] == u[k]);
    assert(u0.len() <= u.len());
    if i < s.len() - 1 {
        assert(init[i] == s[i]);
        lemma_unique_covers(init, eq, i);
        if u0.contains(s[i]) {
            let k = choose|k: int| 0 <= k < u0.len() && u0[k] == s[i];
            assert(u[k] == s[i]);
        } else {
            let k = choose|k: int| 0 <= k < u0.len() && eq(#[trigger] u0[k], init[i]);
            assert(eq(u[k], s[i]));
        }
    } else if !dropped {
        assert(u[u.len() - 1] == s[i]);
    } else {
        let j = choose|j: int| 0 <= j < s.len() - 1 && eq(#[trigger] s[j], s.last());
        assert(init[j] == s[j]);
        lemma_unique_covers(init, eq, j);
        if u0.contains(s[j]) {
            let k = choose|k: int| 0 <= k < u0.len() && u0[k] == s[j];
            assert(eq(u[k], s[i]));
        } else {
            let k = choose|k: int| 0 <= k < u0.len() && eq(#[trigger] u0[k], init[j]);
            assert(eq(u[k], s[j]));
            assert(eq(u[k], s[i]));
        }
    }
}

/// Every element that `keep` gives passes the test.
pub proof fn lemma_keep_passes<A>(s: Seq<A>, p: spec_fn(A) -> bool)
    ensures
        forall|k: int| 0 <= k < keep(s, p).len() ==> p(#[trigger] keep(s, p)[k]),
    decreases s.len(),
{
    if s.len() > 0 {
        let init = keep(s.drop_last(), p);
        lemma_keep_passes(s.drop_last(), p);
        assert forall|k: int| 0 <= k < keep(s, p).len() implies p(#[trigger] keep(s, p)[k]) by {
            if k < init.len() {
                assert(keep(s, p)[k] == init[k]);
            }
        }
    }
}

} // verus!
