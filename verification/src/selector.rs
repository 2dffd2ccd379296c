//! The selector: runs the tokens of a compiled path over a JSON document.
use vstd::prelude::*;
use crate::json::{JsonValue, JsonNumber, NumberRepr, double_as_isize, exponent_field, f64_bits_as_isize};
use crate::refs::{ValueRef, RefModel, models, duplicate_all};
use crate::term::{ExprTerm, TermModel, FilterKey, KeyModel, FilterOp, compare_terms, term_of_nodes, nodes_term};
use crate::token::{ParseToken, TokenModel, FilterToken, Node, strings_model};
use crate::error::{Halt, JsonPathError, ErrorModel};
use crate::walk::{WalkKind, WalkFun, walk, next_all, members_of, elements_at, objects_with_key_in, slices, has_array, unions,
    walk_refs, next_all_refs, members_refs, elements_refs, objects_with_key_refs, slices_refs, any_array, unions_refs};

verus! {

/// A token kept on the selector's stack until the token that completes it.
#[derive(Clone, Copy, PartialEq, Eq)]
pub enum Pending {
    In,
    Leaves,
    Array,
}

/// The mathematical form of a selector.
pub struct SelectorModel {
    pub value: Option<JsonValue>,
    pub node: Option<Seq<TokenModel>>,
    pub node_ref: Option<Seq<TokenModel>>,
    pub tokens: Seq<Pending>,
    pub terms: Seq<Option<TermModel>>,
    pub current: Option<Seq<RefModel>>,
    pub selectors: Seq<SelectorModel>,
}

/// Nesting height of a selector and the selectors it has started for `$`
/// inside filters.
pub open spec fn height(s: SelectorModel) -> nat
    decreases s, 1nat,
{
    1 + heights(s.selectors)
}

pub open spec fn heights(v: Seq<SelectorModel>) -> nat
    decreases v, 0nat,
{
    if v.len() == 0 {
        0
    } else {
        let a = height(v.last());
        let b = heights(v.drop_last());
        if a > b { a } else { b }
    }
}

pub open spec fn root_ref(v: JsonValue) -> RefModel {
    RefModel::Node(Seq::empty(), v)
}

/// A selector started for a `$` inside a filter, on document `v`.
pub open spec fn sub_selector(v: JsonValue) -> SelectorModel {
    SelectorModel {
        value: Some(v),
        node: None,
        node_ref: None,
        tokens: seq![],
        terms: seq![],
        current: Some(seq![root_ref(v)]),
        selectors: seq![],
    }
}

pub open spec fn with_current(s: SelectorModel, c: Option<Seq<RefModel>>) -> SelectorModel {
    SelectorModel { current: c, ..s }
}

pub open spec fn with_tokens(s: SelectorModel, t: Seq<Pending>) -> SelectorModel {
    SelectorModel { tokens: t, ..s }
}

pub open spec fn with_terms(s: SelectorModel, t: Seq<Option<TermModel>>) -> SelectorModel {
    SelectorModel { terms: t, ..s }
}

pub open spec fn with_selectors(s: SelectorModel, v: Seq<SelectorModel>) -> SelectorModel {
    SelectorModel { selectors: v, ..s }
}

pub open spec fn top_is(t: Seq<Pending>, p: Pending) -> bool {
    t.len() > 0 && t.last() == p
}

/// `g` applied to the selected nodes, if there are any.
pub open spec fn map_current(c: Option<Seq<RefModel>>, g: spec_fn(Seq<RefModel>) -> Seq<RefModel>) -> Option<Seq<RefModel>> {
    match c {
        Some(v) => Some(g(v)),
        None => None,
    }
}

pub open spec fn descendants_fn() -> spec_fn(Seq<RefModel>) -> Seq<RefModel> {
    |c: Seq<RefModel>| walk(WalkKind::Children, c)
}

pub open spec fn children_all_fn() -> spec_fn(Seq<RefModel>) -> Seq<RefModel> {
    |c: Seq<RefModel>| next_all(c)
}

pub open spec fn members_all_fn(keys: Seq<Seq<char>>) -> spec_fn(Seq<RefModel>) -> Seq<RefModel> {
    |c: Seq<RefModel>| members_of(c, keys)
}

pub open spec fn elements_all_fn(n: int) -> spec_fn(Seq<RefModel>) -> Seq<RefModel> {
    |c: Seq<RefModel>| elements_at(c, n)
}

pub open spec fn member_values_fn(key: Seq<char>) -> spec_fn(Seq<RefModel>) -> Seq<RefModel> {
    |c: Seq<RefModel>| walk(WalkKind::MemberValue(key), c)
}

/// A sub-selector that the token closes hands its selection, as a term, to
/// the selector below it (or to this one); a sub-selector without a
/// selection cannot occur (`Halt::Unreachable`).
pub open spec fn closes(t: TokenModel) -> bool {
    t is Absolute || t is Relative || t is Filter
}

pub open spec fn close_nested(s: SelectorModel, t: TokenModel) -> Result<SelectorModel, Halt> {
    if s.selectors.len() > 0 && closes(t) {
        let sel = s.selectors.last();
        let rest = s.selectors.drop_last();
        match sel.current {
            Some(c) => {
                let term = term_of_nodes(c);
                if rest.len() > 0 {
                    Ok(with_selectors(s, rest.drop_last().push(with_terms(rest.last(), rest.last().terms.push(Some(term))))))
                } else {
                    Ok(with_terms(with_selectors(s, rest), s.terms.push(Some(term))))
                }
            },
            None => Err(Halt::Unreachable),
        }
    } else {
        Ok(s)
    }
}

pub proof fn lemma_heights_last(v: Seq<SelectorModel>)
    requires
        v.len() > 0,
    ensures
        height(v.last()) <= heights(v),
        heights(v.drop_last()) <= heights(v),
{
}

pub proof fn lemma_close_height(s: SelectorModel, t: TokenModel)
    ensures
        close_nested(s, t) matches Ok(s1) ==> (s1.selectors.len() > 0 ==> height(s1.selectors.last()) < height(s)),
{
    if s.selectors.len() > 0 {
        lemma_heights_last(s.selectors);
        let rest = s.selectors.drop_last();
        if closes(t) && rest.len() > 0 {
            lemma_heights_last(rest);
            let x = rest.last();
            assert(height(with_terms(x, x.terms.push(Some(term_of_nodes(s.selectors.last().current.unwrap())))))
                == 1 + heights(x.selectors));
        }
    }
}

/// The selector's next step on token `t`: a selector that has started
/// sub-selectors passes the token to the newest one; otherwise
/// `own_step`. `Err` is where the evaluation cannot go on.
pub open spec fn step(s: SelectorModel, t: TokenModel) -> Result<SelectorModel, Halt>
    decreases height(s),
{
    match close_nested(s, t) {
        Err(h) => Err(h),
        Ok(s1) => if s1.selectors.len() > 0 {
            proof { lemma_close_height(s, t); }
            match step(s1.selectors.last(), t) {
                Ok(c) => Ok(with_selectors(s1, s1.selectors.drop_last().push(c))),
                Err(h) => Err(h),
            }
        } else {
            own_step(s1, t)
        },
    }
}

pub open spec fn step_absolute(s: SelectorModel) -> SelectorModel {
    match s.value {
        Some(v) => if s.current is Some {
            with_selectors(s, s.selectors.push(sub_selector(v)))
        } else {
            with_current(s, Some(seq![root_ref(v)]))
        },
        None => s,
    }
}

pub open spec fn step_relative(s: SelectorModel) -> SelectorModel {
    let s2 = if top_is(s.tokens, Pending::Array) && top_is(s.tokens.drop_last(), Pending::Leaves) {
        with_current(
            with_tokens(s, s.tokens.drop_last().drop_last().push(Pending::Array)),
            map_current(s.current, descendants_fn()),
        )
    } else {
        s
    };
    with_terms(s2, s2.terms.push(None))
}

pub open spec fn step_array_eof(s: SelectorModel) -> SelectorModel {
    let s2 = if s.terms.len() > 0 {
        let s1 = with_terms(s, s.terms.drop_last());
        match s.terms.last() {
            Some(TermModel::Num(n)) => with_current(s1, map_current(s.current, elements_all_fn(double_as_isize(n.f64_bits)))),
            Some(TermModel::Str(k)) => with_current(s1, map_current(s.current, members_all_fn(seq![k]))),
            Some(TermModel::Json(_, v)) => with_current(s1, Some(if v.len() == 0 { seq![RefModel::Null] } else { v })),
            Some(TermModel::Bool(false)) => with_current(s1, Some(seq![RefModel::Null])),
            _ => s1,
        }
    } else {
        s
    };
    if s2.tokens.len() > 0 { with_tokens(s2, s2.tokens.drop_last()) } else { s2 }
}

pub open spec fn step_all(s: SelectorModel) -> SelectorModel {
    let t1 = if top_is(s.tokens, Pending::Array) { s.tokens.drop_last() } else { s.tokens };
    if top_is(t1, Pending::Leaves) {
        with_current(with_tokens(s, t1.drop_last()), map_current(s.current, descendants_fn()))
    } else if top_is(t1, Pending::In) {
        with_current(with_tokens(s, t1.drop_last()), map_current(s.current, children_all_fn()))
    } else {
        with_current(with_tokens(s, t1), map_current(s.current, children_all_fn()))
    }
}

/// The nodes that a key inside a filter reaches from nodes `c`: after
/// `..`, every object in their subtrees with that member; after `.`, the
/// objects among them (searched through arrays) with that member, once each.
pub open spec fn filter_nodes(fk: KeyModel, key: Seq<char>, c: Seq<RefModel>) -> Seq<RefModel> {
    match fk {
        KeyModel::All => walk(WalkKind::ObjectsWithKey(key), c),
        KeyModel::String(_) => objects_with_key_in(key, c),
    }
}

/// A key inside a filter: replaces the top term (the nodes it holds, or
/// for an open term the current selection) by the nodes the key reaches.
pub open spec fn in_filter(s: SelectorModel, fk: KeyModel, key: Seq<char>) -> Result<SelectorModel, Halt> {
    if s.terms.len() == 0 {
        Ok(s)
    } else {
        let rest = s.terms.drop_last();
        match s.terms.last() {
            Some(TermModel::Json(_, v)) => Ok(with_terms(s, rest.push(Some(TermModel::Json(Some(fk), filter_nodes(fk, key, v)))))),
            Some(_) => Err(Halt::Unreachable),
            None => match s.current {
                Some(c) => Ok(with_terms(s, rest.push(Some(TermModel::Json(Some(fk), filter_nodes(fk, key, c)))))),
                None => Ok(with_terms(s, rest)),
            },
        }
    }
}

pub open spec fn step_key(s: SelectorModel, k: Seq<char>) -> Result<SelectorModel, Halt> {
    if top_is(s.tokens, Pending::Array) {
        Ok(with_terms(s, s.terms.push(Some(TermModel::Str(k)))))
    } else if s.tokens.len() == 0 {
        Ok(s)
    } else {
        let p = s.tokens.last();
        let s1 = with_tokens(s, s.tokens.drop_last());
        if s.terms.len() == 0 {
            match p {
                Pending::Leaves => Ok(with_current(s1, map_current(s.current, member_values_fn(k)))),
                Pending::In => Ok(with_current(s1, map_current(s.current, members_all_fn(seq![k])))),
                _ => Ok(s1),
            }
        } else {
            match p {
                Pending::Leaves => in_filter(s1, KeyModel::All, k),
                Pending::In => in_filter(s1, KeyModel::String(k), k),
                _ => Ok(s1),
            }
        }
    }
}

pub open spec fn step_keys(s: SelectorModel, ks: Seq<Seq<char>>) -> Result<SelectorModel, Halt> {
    if s.terms.len() > 0 {
        Err(Halt::KeysInFilter)
    } else if top_is(s.tokens, Pending::Array) {
        Ok(with_current(with_tokens(s, s.tokens.drop_last()), map_current(s.current, members_all_fn(ks))))
    } else {
        Err(Halt::Unreachable)
    }
}

/// The operand on top of the term stack: the term, or for an open term
/// the current selection.
pub open spec fn pop_operand(terms: Seq<Option<TermModel>>, c: Option<Seq<RefModel>>, empty: Halt)
    -> Result<(TermModel, Seq<Option<TermModel>>), Halt>
{
    if terms.len() == 0 {
        Err(empty)
    } else {
        match terms.last() {
            Some(t) => Ok((t, terms.drop_last())),
            None => match c {
                Some(v) => Ok((TermModel::Json(None, v), terms.drop_last())),
                None => Err(Halt::Unreachable),
            },
        }
    }
}

pub open spec fn filter_op(f: FilterToken) -> FilterOp {
    match f {
        FilterToken::Equal => FilterOp::Eq,
        FilterToken::NotEqual => FilterOp::Ne,
        FilterToken::Greater => FilterOp::Gt,
        FilterToken::GreaterOrEqual => FilterOp::Ge,
        FilterToken::Little => FilterOp::Lt,
        FilterToken::LittleOrEqual => FilterOp::Le,
        FilterToken::And => FilterOp::And,
        FilterToken::Or => FilterOp::Or,
    }
}

pub open spec fn step_filter(s: SelectorModel, f: FilterToken) -> Result<SelectorModel, Halt> {
    match pop_operand(s.terms, s.current, Halt::EmptyTermRight) {
        Err(h) => Err(h),
        Ok((right, t1)) => match pop_operand(t1, s.current, Halt::EmptyTermLeft) {
            Err(h) => Err(h),
            Ok((left, t2)) => Ok(with_terms(s, t2.push(Some(compare_terms(left, right, filter_op(f)))))),
        },
    }
}

pub open spec fn selection_or_empty(c: Option<Seq<RefModel>>) -> Seq<RefModel> {
    match c {
        Some(v) => v,
        None => seq![],
    }
}

pub open spec fn step_range(s: SelectorModel, from: Option<isize>, to: Option<isize>, st: Option<usize>) -> Result<SelectorModel, Halt> {
    if s.terms.len() > 0 {
        Err(Halt::RangeInFilter)
    } else if !top_is(s.tokens, Pending::Array) {
        Err(Halt::Unreachable)
    } else if st == Some(0usize) && has_array(selection_or_empty(s.current)) {
        Err(Halt::ZeroStep)
    } else {
        let step = match st { Some(x) => x as int, None => 1 };
        Ok(with_current(with_tokens(s, s.tokens.drop_last()), Some(slices(selection_or_empty(s.current), from, to, step))))
    }
}

pub open spec fn step_union(s: SelectorModel, ix: Seq<isize>) -> Result<SelectorModel, Halt> {
    if s.terms.len() > 0 {
        Err(Halt::UnionInFilter)
    } else if !top_is(s.tokens, Pending::Array) {
        Err(Halt::Unreachable)
    } else {
        Ok(with_current(with_tokens(s, s.tokens.drop_last()), Some(unions(selection_or_empty(s.current), ix))))
    }
}

/// The step of a selector that has no sub-selector running.
pub open spec fn own_step(s: SelectorModel, t: TokenModel) -> Result<SelectorModel, Halt> {
    match t {
        TokenModel::Absolute => Ok(step_absolute(s)),
        TokenModel::Relative => Ok(step_relative(s)),
        TokenModel::In => Ok(with_tokens(s, s.tokens.push(Pending::In))),
        TokenModel::Leaves => Ok(with_tokens(s, s.tokens.push(Pending::Leaves))),
        TokenModel::Array => Ok(with_tokens(s, s.tokens.push(Pending::Array))),
        TokenModel::ArrayEof => Ok(step_array_eof(s)),
        TokenModel::All => Ok(step_all(s)),
        TokenModel::Bool(b) => Ok(with_terms(s, s.terms.push(Some(TermModel::Bool(b))))),
        TokenModel::Key(k) => step_key(s, k),
        TokenModel::Keys(ks) => step_keys(s, ks),
        TokenModel::Number(bits) => if exponent_field(bits) == 2047 {
            Err(Halt::NotFinite)
        } else {
            Ok(with_terms(s, s.terms.push(Some(TermModel::Num(JsonNumber { repr: NumberRepr::Float(bits), f64_bits: bits })))))
        },
        TokenModel::Filter(f) => step_filter(s, f),
        TokenModel::Range(a, b, c) => step_range(s, a, b, c),
        TokenModel::Union(ix) => step_union(s, ix),
        TokenModel::Eof => Ok(s),
    }
}

/// The selector after all tokens of a path, in order.
pub open spec fn run(s: SelectorModel, ts: Seq<TokenModel>) -> Result<SelectorModel, Halt>
    decreases ts.len(),
{
    if ts.len() == 0 {
        Ok(s)
    } else {
        match run(s, ts.drop_last()) {
            Ok(s1) => step(s1, ts.last()),
            Err(h) => Err(h),
        }
    }
}


// ---------------------------------------------------------------------------
// The executable selector

/// Selects nodes of a JSON document by a compiled path.
pub struct Selector<'a, 'b> {
    node: Option<Node>,
    node_ref: Option<&'b Node>,
    value: Option<&'a JsonValue>,
    tokens: Vec<Pending>,
    terms: Vec<Option<ExprTerm<'a>>>,
    current: Option<Vec<ValueRef<'a>>>,
    selectors: Vec<Selector<'a, 'b>>,
}

pub open spec fn term_slot_model<'a>(o: Option<ExprTerm<'a>>) -> Option<TermModel> {
    match o {
        Some(t) => Some(t@),
        None => None,
    }
}

pub open spec fn terms_model<'a>(v: Seq<Option<ExprTerm<'a>>>) -> Seq<Option<TermModel>> {
    v.map_values(|o: Option<ExprTerm<'a>>| term_slot_model(o))
}

pub open spec fn current_model<'a>(c: Option<Vec<ValueRef<'a>>>) -> Option<Seq<RefModel>> {
    match c {
        Some(v) => Some(models(v@)),
        None => None,
    }
}

pub open spec fn node_model(n: Option<Node>) -> Option<Seq<TokenModel>> {
    match n {
        Some(n) => Some(n@),
        None => None,
    }
}

pub closed spec fn selector_model<'a, 'b>(s: Selector<'a, 'b>) -> SelectorModel
    decreases s, 1nat,
{
    SelectorModel {
        value: match s.value {
            Some(v) => Some(*v),
            None => None,
        },
        node: node_model(s.node),
        node_ref: match s.node_ref {
            Some(n) => Some(n@),
            None => None,
        },
        tokens: s.tokens@,
        terms: terms_model(s.terms@),
        current: current_model(s.current),
        selectors: selectors_model(s.selectors@),
    }
}

pub closed spec fn selectors_model<'a, 'b>(v: Seq<Selector<'a, 'b>>) -> Seq<SelectorModel>
    decreases v, 0nat,
{
    if v.len() == 0 {
        seq![]
    } else {
        selectors_model(v.drop_last()).push(selector_model(v.last()))
    }
}

impl<'a, 'b> View for Selector<'a, 'b> {
    type V = SelectorModel;

    closed spec fn view(&self) -> SelectorModel {
        selector_model(*self)
    }
}

proof fn lemma_selectors_push<'a, 'b>(v: Seq<Selector<'a, 'b>>, x: Selector<'a, 'b>)
    ensures
        selectors_model(v.push(x)) == selectors_model(v).push(x@),
{
    assert(v.push(x).drop_last() =~= v);
}

proof fn lemma_selectors_last<'a, 'b>(v: Seq<Selector<'a, 'b>>)
    requires
        v.len() > 0,
    ensures
        selectors_model(v).len() == v.len(),
        selectors_model(v).last() == v.last()@,
        selectors_model(v).drop_last() == selectors_model(v.drop_last()),
{
    lemma_selectors_len(v);
}

proof fn lemma_selectors_len<'a, 'b>(v: Seq<Selector<'a, 'b>>)
    ensures
        selectors_model(v).len() == v.len(),
    decreases v.len(),
{
    if v.len() > 0 {
        lemma_selectors_len(v.drop_last());
    }
}

proof fn lemma_terms_push<'a>(v: Seq<Option<ExprTerm<'a>>>, x: Option<ExprTerm<'a>>)
    ensures
        terms_model(v.push(x)) == terms_model(v).push(term_slot_model(x)),
{
    assert(terms_model(v.push(x)) =~= terms_model(v).push(term_slot_model(x)));
}

proof fn lemma_terms_pop<'a>(v: Seq<Option<ExprTerm<'a>>>)
    requires
        v.len() > 0,
    ensures
        terms_model(v.drop_last()) == terms_model(v).drop_last(),
        term_slot_model(v.last()) == terms_model(v).last(),
{
    assert(terms_model(v.drop_last()) =~= terms_model(v).drop_last());
}

impl<'a, 'b> Selector<'a, 'b> {
    /// A selector with no path, no document and no selection.
    pub fn new() -> (s: Self)
        ensures
            s@ == (SelectorModel {
                value: None,
                node: None,
                node_ref: None,
                tokens: seq![],
                terms: seq![],
                current: None,
                selectors: seq![],
            }),
    {
        let s = Selector {
            node: None,
            node_ref: None,
            value: None,
            tokens: Vec::new(),
            terms: Vec::new(),
            current: None,
            selectors: Vec::new(),
        };
        proof {
            assert(terms_model(s.terms@) =~= seq![]);
        }
        s
    }

    fn push_term(&mut self, t: Option<ExprTerm<'a>>)
        ensures
            final(self)@ == with_terms(old(self)@, old(self)@.terms.push(term_slot_model(t))),
    {
        proof { lemma_terms_push(self.terms@, t); }
        self.terms.push(t);
    }

    /// Pops the top term slot; `None` when the stack is empty.
    fn pop_term(&mut self) -> (r: Option<Option<ExprTerm<'a>>>)
        ensures
            old(self)@.terms.len() == 0 ==> r is None && final(self)@ == old(self)@,
            old(self)@.terms.len() > 0 ==> (r matches Some(x) && term_slot_model(x) == old(self)@.terms.last()
                && final(self)@ == with_terms(old(self)@, old(self)@.terms.drop_last())),
    {
        proof {
            if self.terms@.len() > 0 {
                lemma_terms_pop(self.terms@);
            }
        }
        self.terms.pop()
    }

    fn set_current(&mut self, c: Option<Vec<ValueRef<'a>>>)
        ensures
            final(self)@ == with_current(old(self)@, current_model(c)),
    {
        self.current = c;
    }

    fn pop_pending(&mut self) -> (r: Option<Pending>)
        ensures
            old(self)@.tokens.len() == 0 ==> r is None && final(self)@ == old(self)@,
            old(self)@.tokens.len() > 0 ==> r == Some(old(self)@.tokens.last())
                && final(self)@ == with_tokens(old(self)@, old(self)@.tokens.drop_last()),
    {
        self.tokens.pop()
    }

    fn push_pending(&mut self, p: Pending)
        ensures
            final(self)@ == with_tokens(old(self)@, old(self)@.tokens.push(p)),
    {
        self.tokens.push(p)
    }

    fn top_pending(&self) -> (r: Option<Pending>)
        ensures
            self@.tokens.len() == 0 ==> r is None,
            self@.tokens.len() > 0 ==> r == Some(self@.tokens.last()),
    {
        if self.tokens.len() == 0 {
            None
        } else {
            Some(self.tokens[self.tokens.len() - 1])
        }
    }

    fn pending_below_top(&self) -> (r: Option<Pending>)
        ensures
            self@.tokens.len() <= 1 ==> r is None,
            self@.tokens.len() > 1 ==> r == Some(self@.tokens.drop_last().last()),
    {
        if self.tokens.len() <= 1 {
            None
        } else {
            Some(self.tokens[self.tokens.len() - 2])
        }
    }

    /// The current selection, moved on by walking all descendants.
    fn descendants_current(&self) -> (r: Option<Vec<ValueRef<'a>>>)
        ensures
            current_model(r) == map_current(self@.current, descendants_fn()),
    {
        match &self.current {
            Some(c) => Some(walk_refs(&WalkFun::Children, c)),
            None => None,
        }
    }

    fn children_current(&self) -> (r: Option<Vec<ValueRef<'a>>>)
        ensures
            current_model(r) == map_current(self@.current, children_all_fn()),
    {
        match &self.current {
            Some(c) => Some(next_all_refs(c)),
            None => None,
        }
    }

    fn members_current(&self, keys: &Vec<String>) -> (r: Option<Vec<ValueRef<'a>>>)
        ensures
            current_model(r) == map_current(self@.current, members_all_fn(strings_model(keys@))),
    {
        match &self.current {
            Some(c) => Some(members_refs(c, keys)),
            None => None,
        }
    }

    fn member_values_current(&self, key: &String) -> (r: Option<Vec<ValueRef<'a>>>)
        ensures
            current_model(r) == map_current(self@.current, member_values_fn(key@)),
    {
        match &self.current {
            Some(c) => Some(walk_refs(&WalkFun::MemberValue(key.clone()), c)),
            None => None,
        }
    }

    fn elements_current(&self, n: isize) -> (r: Option<Vec<ValueRef<'a>>>)
        ensures
            current_model(r) == map_current(self@.current, elements_all_fn(n as int)),
    {
        match &self.current {
            Some(c) => Some(elements_refs(c, n)),
            None => None,
        }
    }

    fn absolute_step(&mut self)
        ensures
            final(self)@ == step_absolute(old(self)@),
    {
        if let Some(v) = self.value {
            if self.current.is_some() {
                let mut sub = Selector::new();
                sub.value = Some(v);
                sub.current = Some(vec![ValueRef::Node(Vec::new(), v)]);
                proof {
                    assert(models(sub.current.unwrap()@) =~= seq![root_ref(*v)]);
                    assert(sub@ == sub_selector(*v));
                    lemma_selectors_push(self.selectors@, sub);
                }
                self.selectors.push(sub);
            } else {
                let c = vec![ValueRef::Node(Vec::new(), v)];
                proof { assert(models(c@) =~= seq![root_ref(*v)]); }
                self.set_current(Some(c));
            }
        }
    }

    fn relative_step(&mut self)
        ensures
            final(self)@ == step_relative(old(self)@),
    {
        if matches!(self.top_pending(), Some(Pending::Array)) && matches!(self.pending_below_top(), Some(Pending::Leaves)) {
            self.pop_pending();
            self.pop_pending();
            let c = self.descendants_current();
            self.set_current(c);
            self.push_pending(Pending::Array);
        }
        self.push_term(None);
    }

    fn array_eof_step(&mut self)
        ensures
            final(self)@ == step_array_eof(old(self)@),
    {
        if let Some(e) = self.pop_term() {
            match e {
                Some(ExprTerm::Number(n)) => {
                    let c = self.elements_current(f64_bits_as_isize(n.f64_bits));
                    self.set_current(c);
                },
                Some(ExprTerm::String(k)) => {
                    let keys = vec![k];
                    proof { assert(strings_model(keys@) =~= seq![keys@[0]@]); }
                    let c = self.members_current(&keys);
                    self.set_current(c);
                },
                Some(ExprTerm::Json(_, v)) => {
                    if v.len() == 0 {
                        let c = vec![ValueRef::Null];
                        proof { assert(models(c@) =~= seq![RefModel::Null]); }
                        self.set_current(Some(c));
                    } else {
                        self.set_current(Some(v));
                    }
                },
                Some(ExprTerm::Bool(false)) => {
                    let c = vec![ValueRef::Null];
                    proof { assert(models(c@) =~= seq![RefModel::Null]); }
                    self.set_current(Some(c));
                },
                _ => {},
            }
        }
        self.pop_pending();
    }

    fn all_step(&mut self)
        ensures
            final(self)@ == step_all(old(self)@),
    {
        if matches!(self.top_pending(), Some(Pending::Array)) {
            self.pop_pending();
        }
        match self.top_pending() {
            Some(Pending::Leaves) => {
                self.pop_pending();
                let c = self.descendants_current();
                self.set_current(c);
            },
            Some(Pending::In) => {
                self.pop_pending();
                let c = self.children_current();
                self.set_current(c);
            },
            _ => {
                let c = self.children_current();
                self.set_current(c);
            },
        }
    }

    /// A key inside a filter (see `in_filter`).
    fn in_filter_step(&mut self, fk: FilterKey, key: &String) -> (r: Result<(), Halt>)
        ensures
            in_filter(old(self)@, fk@, key@) == (match r {
                Ok(_) => Ok::<SelectorModel, Halt>(final(self)@),
                Err(h) => Err::<SelectorModel, Halt>(h),
            }),
    {
        match self.pop_term() {
            Some(Some(ExprTerm::Json(_, v))) => {
                let t = filter_nodes_exec(&fk, key, &v);
                self.push_term(Some(ExprTerm::Json(Some(fk), t)));
                Ok(())
            },
            Some(Some(_)) => Err(Halt::Unreachable),
            Some(None) => {
                let t = match &self.current {
                    Some(c) => Some(filter_nodes_exec(&fk, key, c)),
                    None => None,
                };
                if let Some(t) = t {
                    self.push_term(Some(ExprTerm::Json(Some(fk), t)));
                }
                Ok(())
            },
            None => Ok(()),
        }
    }

    fn key_step(&mut self, k: &String) -> (r: Result<(), Halt>)
        ensures
            step_key(old(self)@, k@) == (match r {
                Ok(_) => Ok::<SelectorModel, Halt>(final(self)@),
                Err(h) => Err::<SelectorModel, Halt>(h),
            }),
    {
        if matches!(self.top_pending(), Some(Pending::Array)) {
            self.push_term(Some(ExprTerm::String(k.clone())));
            return Ok(());
        }
        let no_terms = self.terms.len() == 0;
        match self.pop_pending() {
            Some(Pending::Leaves) => {
                if no_terms {
                    let c = self.member_values_current(k);
                    self.set_current(c);
                    Ok(())
                } else {
                    self.in_filter_step(FilterKey::All, k)
                }
            },
            Some(Pending::In) => {
                if no_terms {
                    let keys = vec![k.clone()];
                    proof { assert(strings_model(keys@) =~= seq![k@]); }
                    let c = self.members_current(&keys);
                    self.set_current(c);
                    Ok(())
                } else {
                    self.in_filter_step(FilterKey::String(k.clone()), k)
                }
            },
            _ => Ok(()),
        }
    }

    fn keys_step(&mut self, ks: &Vec<String>) -> (r: Result<(), Halt>)
        ensures
            step_keys(old(self)@, strings_model(ks@)) == (match r {
                Ok(_) => Ok::<SelectorModel, Halt>(final(self)@),
                Err(h) => Err::<SelectorModel, Halt>(h),
            }),
    {
        if self.terms.len() > 0 {
            return Err(Halt::KeysInFilter);
        }
        if let Some(Pending::Array) = self.pop_pending() {
            let c = self.members_current(ks);
            self.set_current(c);
            Ok(())
        } else {
            Err(Halt::Unreachable)
        }
    }

    /// Pops an operand of a filter operator (see `pop_operand`).
    fn pop_operand_exec(&mut self, empty: Halt) -> (r: Result<ExprTerm<'a>, Halt>)
        ensures
            match pop_operand(old(self)@.terms, old(self)@.current, empty) {
                Ok((t, rest)) => r matches Ok(x) && x@ == t && final(self)@ == with_terms(old(self)@, rest),
                Err(h) => r == Err::<ExprTerm<'a>, Halt>(h),
            },
    {
        match self.pop_term() {
            Some(Some(t)) => Ok(t),
            Some(None) => match &self.current {
                Some(c) => Ok(ExprTerm::Json(None, duplicate_all(c))),
                None => Err(Halt::Unreachable),
            },
            None => Err(empty),
        }
    }

    fn filter_step(&mut self, f: FilterToken) -> (r: Result<(), Halt>)
        ensures
            step_filter(old(self)@, f) == (match r {
                Ok(_) => Ok::<SelectorModel, Halt>(final(self)@),
                Err(h) => Err::<SelectorModel, Halt>(h),
            }),
    {
        let right = self.pop_operand_exec(Halt::EmptyTermRight)?;
        let left = self.pop_operand_exec(Halt::EmptyTermLeft)?;
        let op = match f {
            FilterToken::Equal => FilterOp::Eq,
            FilterToken::NotEqual => FilterOp::Ne,
            FilterToken::Greater => FilterOp::Gt,
            FilterToken::GreaterOrEqual => FilterOp::Ge,
            FilterToken::Little => FilterOp::Lt,
            FilterToken::LittleOrEqual => FilterOp::Le,
            FilterToken::And => FilterOp::And,
            FilterToken::Or => FilterOp::Or,
        };
        let res = left.compare(&right, op);
        self.push_term(Some(res));
        Ok(())
    }

    fn range_step(&mut self, from: Option<isize>, to: Option<isize>, st: Option<usize>) -> (r: Result<(), Halt>)
        ensures
            step_range(old(self)@, from, to, st) == (match r {
                Ok(_) => Ok::<SelectorModel, Halt>(final(self)@),
                Err(h) => Err::<SelectorModel, Halt>(h),
            }),
    {
        if self.terms.len() > 0 {
            return Err(Halt::RangeInFilter);
        }
        if !matches!(self.pop_pending(), Some(Pending::Array)) {
            return Err(Halt::Unreachable);
        }
        let step: usize = match st {
            Some(x) => x,
            None => 1,
        };
        let c = match &self.current {
            Some(c) => {
                if step == 0 {
                    if any_array(c) {
                        return Err(Halt::ZeroStep);
                    }
                    proof { assert(slices(models(c@), from, to, 0) =~= seq![]) by {
                        assert forall|i: int| 0 <= i < models(c@).len() implies
                            #[trigger] crate::walk::slice_fn(from, to, 0)(models(c@)[i]) == Seq::<RefModel>::empty() by {
                            assert(!(models(c@)[i].value() is Array));
                        }
                        lemma_flat_map_empty(models(c@), crate::walk::slice_fn(from, to, 0));
                    } }
                    let e: Vec<ValueRef<'a>> = Vec::new();
                    proof { assert(models(e@) =~= seq![]); }
                    e
                } else {
                    slices_refs(c, from, to, step)
                }
            },
            None => Vec::new(),
        };
        proof {
            if self@.current is None {
                assert(models(c@) =~= slices(seq![], from, to, step as int));
            }
            assert(models(c@) == slices(selection_or_empty(self@.current), from, to, step as int));
        }
        self.set_current(Some(c));
        Ok(())
    }

    fn union_step(&mut self, ix: &Vec<isize>) -> (r: Result<(), Halt>)
        ensures
            step_union(old(self)@, ix@) == (match r {
                Ok(_) => Ok::<SelectorModel, Halt>(final(self)@),
                Err(h) => Err::<SelectorModel, Halt>(h),
            }),
    {
        if self.terms.len() > 0 {
            return Err(Halt::UnionInFilter);
        }
        if !matches!(self.pop_pending(), Some(Pending::Array)) {
            return Err(Halt::Unreachable);
        }
        let c = match &self.current {
            Some(c) => unions_refs(c, ix),
            None => Vec::new(),
        };
        proof {
            if self@.current is None {
                assert(models(c@) =~= unions(seq![], ix@));
            }
        }
        self.set_current(Some(c));
        Ok(())
    }

    fn own_step_exec(&mut self, token: &ParseToken) -> (r: Result<(), Halt>)
        ensures
            own_step(old(self)@, token@) == (match r {
                Ok(_) => Ok::<SelectorModel, Halt>(final(self)@),
                Err(h) => Err::<SelectorModel, Halt>(h),
            }),
    {
        match token {
            ParseToken::Absolute => {
                self.absolute_step();
                Ok(())
            },
            ParseToken::Relative => {
                self.relative_step();
                Ok(())
            },
            ParseToken::In => {
                self.push_pending(Pending::In);
                Ok(())
            },
            ParseToken::Leaves => {
                self.push_pending(Pending::Leaves);
                Ok(())
            },
            ParseToken::Array => {
                self.push_pending(Pending::Array);
                Ok(())
            },
            ParseToken::ArrayEof => {
                self.array_eof_step();
                Ok(())
            },
            ParseToken::All => {
                self.all_step();
                Ok(())
            },
            ParseToken::Bool(b) => {
                self.push_term(Some(ExprTerm::Bool(*b)));
                Ok(())
            },
            ParseToken::Key(k) => self.key_step(k),
            ParseToken::Keys(ks) => self.keys_step(ks),
            ParseToken::Number(bits) => {
                if (*bits / 0x10_0000_0000_0000) % 2048 == 2047 {
                    Err(Halt::NotFinite)
                } else {
                    self.push_term(Some(ExprTerm::Number(JsonNumber::from_f64_bits(*bits))));
                    Ok(())
                }
            },
            ParseToken::Filter(f) => self.filter_step(*f),
            ParseToken::Range(a, b, c) => self.range_step(*a, *b, *c),
            ParseToken::Union(ix) => self.union_step(ix),
            ParseToken::Eof => Ok(()),
        }
    }

    /// Hands the selection of the newest sub-selector, as a term, to the
    /// selector below it, when `token` closes it (see `close_nested`).
    fn close_nested_exec(&mut self, token: &ParseToken) -> (r: Result<(), Halt>)
        ensures
            close_nested(old(self)@, token@) == (match r {
                Ok(_) => Ok::<SelectorModel, Halt>(final(self)@),
                Err(h) => Err::<SelectorModel, Halt>(h),
            }),
    {
        let closing = match token {
            ParseToken::Absolute | ParseToken::Relative | ParseToken::Filter(_) => true,
            _ => false,
        };
        if self.selectors.len() == 0 || !closing {
            return Ok(());
        }
        proof { lemma_selectors_last(self.selectors@); }
        let sel = self.selectors.pop().unwrap();
        match &sel.current {
            Some(c) => {
                let term = nodes_term(c);
                if self.selectors.len() > 0 {
                    proof { lemma_selectors_last(self.selectors@); }
                    let mut last = self.selectors.pop().unwrap();
                    last.push_term(Some(term));
                    proof { lemma_selectors_push(self.selectors@, last); }
                    self.selectors.push(last);
                } else {
                    self.push_term(Some(term));
                }
                Ok(())
            },
            None => Err(Halt::Unreachable),
        }
    }

    /// Takes one token of a compiled path (see `step`); `Err` where the
    /// evaluation cannot go on.
    pub fn visit_token(&mut self, token: &ParseToken) -> (r: Result<(), Halt>)
        ensures
            step(old(self)@, token@) == (match r {
                Ok(_) => Ok::<SelectorModel, Halt>(final(self)@),
                Err(h) => Err::<SelectorModel, Halt>(h),
            }),
        decreases height(old(self)@),
    {
        let ghost s0 = self@;
        self.close_nested_exec(token)?;
        if self.selectors.len() > 0 {
            proof {
                lemma_close_height(s0, token@);
                lemma_selectors_last(self.selectors@);
            }
            let mut last = self.selectors.pop().unwrap();
            let r = last.visit_token(token);
            proof { lemma_selectors_push(self.selectors@, last); }
            self.selectors.push(last);
            r
        } else {
            proof { lemma_selectors_len(self.selectors@); }
            self.own_step_exec(token)
        }
    }

    /// Takes the tokens of a compiled path in order (see `run`).
    pub fn visit(&mut self, node: &Node) -> (r: Result<(), Halt>)
        ensures
            run(old(self)@, node@) == (match r {
                Ok(_) => Ok::<SelectorModel, Halt>(final(self)@),
                Err(h) => Err::<SelectorModel, Halt>(h),
            }),
    {
        let ghost ts = node@;
        let ghost s0 = self@;
        for i in 0..node.tokens.len()
            invariant
                ts == node@,
                s0 == old(self)@,
                run(s0, ts.take(i as int)) == Ok::<SelectorModel, Halt>(self@),
        {
            proof {
                assert(ts.take(i + 1).drop_last() =~= ts.take(i as int));
                assert(ts.take(i + 1).last() == node.tokens@[i as int]@);
            }
            match self.visit_token(&node.tokens[i]) {
                Ok(()) => {},
                Err(h) => {
                    proof { lemma_run_halt_extends(s0, ts, i + 1, h); }
                    return Err(h);
                },
            }
        }
        proof { assert(ts.take(ts.len() as int) =~= ts); }
        Ok(())
    }

    /// Sets the path to select with, from what compiling it gave: the
    /// compiled path, or the compiler's message (then a `Path` error).
    /// A path given with `compiled_path` before is dropped in either case.
    pub fn str_path(&mut self, compiled: Result<Node, String>) -> (r: Result<(), JsonPathError>)
        ensures
            match compiled {
                Ok(n) => r is Ok && final(self)@ == (SelectorModel { node_ref: None, node: Some(n@), ..old(self)@ }),
                Err(m) => r matches Err(e) && e@ == ErrorModel::Path(m@)
                    && final(self)@ == (SelectorModel { node_ref: None, ..old(self)@ }),
            },
    {
        if self.node_ref.is_some() {
            self.node_ref = None;
        }
        match compiled {
            Ok(n) => {
                self.node = Some(n);
                Ok(())
            },
            Err(m) => Err(JsonPathError::Path(m)),
        }
    }

    /// The path set with `str_path`, if any.
    pub fn node_ref(&self) -> (r: Option<&Node>)
        ensures
            node_model(match r { Some(n) => Some(*n), None => None }) == self@.node,
    {
        match &self.node {
            Some(n) => Some(n),
            None => None,
        }
    }

    /// Sets a compiled path to select with once; drops a path set with
    /// `str_path`.
    pub fn compiled_path(&mut self, node: &'b Node)
        ensures
            final(self)@ == (SelectorModel { node: None, node_ref: Some(node@), ..old(self)@ }),
    {
        if self.node.is_some() {
            self.node = None;
        }
        self.node_ref = Some(node);
    }

    /// Drops the selection made so far.
    pub fn reset_value(&mut self)
        ensures
            final(self)@ == with_current(old(self)@, None),
    {
        self.current = None;
    }

    /// Sets the document to select from.
    pub fn value(&mut self, v: &'a JsonValue)
        ensures
            final(self)@ == (SelectorModel { value: Some(*v), ..old(self)@ }),
    {
        self.value = Some(v);
    }

    /// Runs the path: a path given with `compiled_path` is used and dropped;
    /// else the path given with `str_path` (kept); else `EmptyPath`.
    fn select_path(&mut self) -> (r: Result<(), JsonPathError>)
        ensures
            selected(old(self)@) == (match r {
                Ok(_) => Ok::<SelectorModel, ErrorModel>(final(self)@),
                Err(e) => Err::<SelectorModel, ErrorModel>(e@),
            }),
            r matches Err(e) && e@ == ErrorModel::EmptyPath ==> final(self)@ == old(self)@,
    {
        if let Some(n) = self.node_ref {
            self.node_ref = None;
            return match self.visit(n) {
                Ok(()) => Ok(()),
                Err(h) => Err(JsonPathError::Halted(h)),
            };
        }
        match self.node.take() {
            None => Err(JsonPathError::EmptyPath),
            Some(n) => {
                match self.visit(&n) {
                    Ok(()) => {
                        self.node = Some(n);
                        Ok(())
                    },
                    Err(h) => Err(JsonPathError::Halted(h)),
                }
            },
        }
    }

    /// Selects with the path from the document (see `select_outcome`):
    /// the nodes selected, in order.
    pub fn select(&mut self) -> (r: Result<Vec<ValueRef<'a>>, JsonPathError>)
        ensures
            match select_outcome(old(self)@) {
                Ok(c) => r matches Ok(v) && models(v@) == c,
                Err(e) => r matches Err(x) && x@ == e,
            },
            selected(old(self)@) matches Ok(m) ==> final(self)@ == m,
            selected(old(self)@) == Err::<SelectorModel, ErrorModel>(ErrorModel::EmptyPath) ==> final(self)@ == old(self)@,
    {
        self.select_path()?;
        match &self.current {
            Some(c) => Ok(duplicate_all(c)),
            None => Err(JsonPathError::EmptyValue),
        }
    }
}

/// The selector after running its path: the path given with
/// `compiled_path`, which is dropped, or else the one given with
/// `str_path`, which is kept; `EmptyPath` when there is none.
pub open spec fn selected(s: SelectorModel) -> Result<SelectorModel, ErrorModel> {
    match s.node_ref {
        Some(ts) => match run(SelectorModel { node_ref: None, ..s }, ts) {
            Ok(m) => Ok(m),
            Err(h) => Err(ErrorModel::Halted(h)),
        },
        None => match s.node {
            None => Err(ErrorModel::EmptyPath),
            Some(ts) => match run(SelectorModel { node: None, ..s }, ts) {
                Ok(m) => Ok(SelectorModel { node: Some(ts), ..m }),
                Err(h) => Err(ErrorModel::Halted(h)),
            },
        },
    }
}

/// What `select` gives: the selection after running the path, or
/// `EmptyValue` when nothing was ever selected.
pub open spec fn select_outcome(s: SelectorModel) -> Result<Seq<RefModel>, ErrorModel> {
    match selected(s) {
        Ok(m) => match m.current {
            Some(c) => Ok(c),
            None => Err(ErrorModel::EmptyValue),
        },
        Err(e) => Err(e),
    }
}

proof fn lemma_run_halt_extends(s: SelectorModel, ts: Seq<TokenModel>, i: int, h: Halt)
    requires
        0 <= i <= ts.len(),
        run(s, ts.take(i)) == Err::<SelectorModel, Halt>(h),
    ensures
        run(s, ts) == Err::<SelectorModel, Halt>(h),
    decreases ts.len() - i,
{
    if i == ts.len() {
        assert(ts.take(i) =~= ts);
    } else {
        assert(ts.take(i + 1).drop_last() =~= ts.take(i));
        lemma_run_halt_extends(s, ts, i + 1, h);
    }
}

proof fn lemma_flat_map_empty<A, B>(s: Seq<A>, f: spec_fn(A) -> Seq<B>)
    requires
        forall|i: int| 0 <= i < s.len() ==> #[trigger] f(s[i]) == Seq::<B>::empty(),
    ensures
        s.flat_map(f) == Seq::<B>::empty(),
    decreases s.len(),
{
    if s.len() > 0 {
        assert(f(s.last()) == Seq::<B>::empty());
        lemma_flat_map_empty(s.drop_last(), f);
        s.drop_last().lemma_flat_map_push(f, s.last());
        assert(s.drop_last().push(s.last()) =~= s);
    } else {
        assert(s.flat_map(f) =~= Seq::<B>::empty());
    }
}

fn filter_nodes_exec<'a>(fk: &FilterKey, key: &String, c: &Vec<ValueRef<'a>>) -> (r: Vec<ValueRef<'a>>)
    ensures
        models(r@) == filter_nodes(fk@, key@, models(c@)),
{
    match fk {
        FilterKey::All => walk_refs(&WalkFun::ObjectsWithKey(key.clone()), c),
        FilterKey::String(_) => objects_with_key_refs(key, c),
    }
}

} // verus!
