//! The tokens of a compiled JSONPath, in the order in which a visit of the
//! parsed path hands them out.
use vstd::prelude::*;

verus! {

/// The operators of filter expressions.
#[derive(Clone, Copy, PartialEq, Eq)]
pub enum FilterToken {
    Equal,
    NotEqual,
    Little,
    LittleOrEqual,
    Greater,
    GreaterOrEqual,
    And,
    Or,
}

/// A token of a compiled path. Numbers are given by the bit pattern of
/// their IEEE-754 double value.
pub enum ParseToken {
    Absolute,
    Relative,
    In,
    Leaves,
    All,
    Key(String),
    Keys(Vec<String>),
    Array,
    ArrayEof,
    Filter(FilterToken),
    Range(Option<isize>, Option<isize>, Option<usize>),
    Union(Vec<isize>),
    Number(u64),
    Bool(bool),
    Eof,
}

pub enum TokenModel {
    Absolute,
    Relative,
    In,
    Leaves,
    All,
    Key(Seq<char>),
    Keys(Seq<Seq<char>>),
    Array,
    ArrayEof,
    Filter(FilterToken),
    Range(Option<isize>, Option<isize>, Option<usize>),
    Union(Seq<isize>),
    Number(u64),
    Bool(bool),
    Eof,
}

pub open spec fn strings_model(v: Seq<String>) -> Seq<Seq<char>> {
    v.map_values(|s: String| s@)
}

pub proof fn lemma_strings_push(v: Seq<String>, s: String)
    ensures
        strings_model(v.push(s)) == strings_model(v).push(s@),
{
    assert(strings_model(v.push(s)) =~= strings_model(v).push(s@));
}

impl View for ParseToken {
    type V = TokenModel;

    open spec fn view(&self) -> TokenModel {
        match self {
            ParseToken::Absolute => TokenModel::Absolute,
            ParseToken::Relative => TokenModel::Relative,
            ParseToken::In => TokenModel::In,
            ParseToken::Leaves => TokenModel::Leaves,
            ParseToken::All => TokenModel::All,
            ParseToken::Key(k) => TokenModel::Key(k@),
            ParseToken::Keys(ks) => TokenModel::Keys(strings_model(ks@)),
            ParseToken::Array => TokenModel::Array,
            ParseToken::ArrayEof => TokenModel::ArrayEof,
            ParseToken::Filter(f) => TokenModel::Filter(*f),
            ParseToken::Range(a, b, c) => TokenModel::Range(*a, *b, *c),
            ParseToken::Union(v) => TokenModel::Union(v@),
            ParseToken::Number(n) => TokenModel::Number(*n),
            ParseToken::Bool(b) => TokenModel::Bool(*b),
            ParseToken::Eof => TokenModel::Eof,
        }
    }
}

/// A compiled path: the tokens of the parsed path in the order in which
/// its visit hands them out.
pub struct Node {
    pub tokens: Vec<ParseToken>,
}

impl View for Node {
    type V = Seq<TokenModel>;

    open spec fn view(&self) -> Seq<TokenModel> {
        self.tokens@.map_values(|t: ParseToken| t@)
    }
}

} // verus!
