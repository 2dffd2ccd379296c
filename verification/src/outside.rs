//! The calls into array_tool, on nodes tagged with their position, and the
//! equality of JSON values that array_tool's set operations use.
use vstd::prelude::*;
use vstd::std_specs::cmp::PartialEqSpecImpl;
use array_tool::vec::{Intersect, Union};
use crate::json::{JsonValue, json_eq, json_equal};
use crate::seqs::{keep, unique_by};
use crate::text::{decimal, parse_usize_spec};

verus! {

/// A node value together with the position it was taken from; two tagged
/// values are equal when the JSON values are.
#[derive(Clone, Copy)]
pub struct Tagged<'b> {
    pub value: &'b JsonValue,
    pub pos: usize,
}

impl<'b> PartialEq for Tagged<'b> {
    fn eq(&self, other: &Self) -> (r: bool) {
        json_equal(self.value, other.value)
    }
}

impl<'b> PartialEqSpecImpl for Tagged<'b> {
    open spec fn obeys_eq_spec() -> bool {
        true
    }

    open spec fn eq_spec(&self, other: &Self) -> bool {
        json_eq(*self.value, *other.value)
    }
}

/// The equality of tagged values, as a spec function.
pub open spec fn tagged_eq<'b>() -> spec_fn(Tagged<'b>, Tagged<'b>) -> bool {
    |x: Tagged<'b>, y: Tagged<'b>| json_eq(*x.value, *y.value)
}

/// Whether `x` equals some element of `b`.
pub open spec fn equal_in<'b>(b: Seq<Tagged<'b>>) -> spec_fn(Tagged<'b>) -> bool {
    |x: Tagged<'b>| exists|j: int| 0 <= j < b.len() && json_eq(*x.value, *(#[trigger] b[j]).value)
}

/// Whether `x` differs from some element of `b`.
pub open spec fn differs_in<'b>(b: Seq<Tagged<'b>>) -> spec_fn(Tagged<'b>) -> bool {
    |x: Tagged<'b>| exists|j: int| 0 <= j < b.len() && !json_eq(*x.value, *(#[trigger] b[j]).value)
}

/// Whether two tagged values differ.
pub fn tagged_differ<'b>(x: &Tagged<'b>, y: &Tagged<'b>) -> (r: bool)
    ensures
        r == !json_eq(*x.value, *y.value),
{
    !json_equal(x.value, y.value)
}

/// `Intersect::intersect` of array_tool on a vector of tagged values.
/// The contract states what its source does: it drops from `a` each element
/// equal to an earlier one (`unique`), then keeps those equal to some
/// element of `b`, in order, returning copies of the elements of `a`.
#[verifier::external_body]
pub(crate) fn array_intersect<'b>(a: &Vec<Tagged<'b>>, b: Vec<Tagged<'b>>) -> (r: Vec<Tagged<'b>>)
    ensures
        r@ == keep(unique_by(a@, tagged_eq()), equal_in(b@)),
{
    a.intersect(b)
}

/// `Intersect::intersect_if` of array_tool, with a test that two tagged
/// values differ. The contract states what its source does: the elements of
/// `a`, each after dropping those equal to an earlier one, that differ
/// from some element of `b`, in order.
#[verifier::external_body]
pub(crate) fn array_intersect_differing<'b>(a: &Vec<Tagged<'b>>, b: Vec<Tagged<'b>>) -> (r: Vec<Tagged<'b>>)
    ensures
        r@ == keep(unique_by(a@, tagged_eq()), differs_in(b@)),
{
    a.intersect_if(b, |x: &Tagged<'b>, y: &Tagged<'b>| tagged_differ(x, y))
}

/// `Union::union` of array_tool on vectors of tagged values. The contract
/// states what its source does: `a` followed by `b`, without each element
/// equal to an earlier one.
#[verifier::external_body]
pub(crate) fn array_union<'b>(a: &Vec<Tagged<'b>>, b: Vec<Tagged<'b>>) -> (r: Vec<Tagged<'b>>)
    ensures
        r@ == unique_by(a@ + b@, tagged_eq()),
{
    a.union(b)
}


/// `ToString::to_string` on a `usize`: its documentation (the `Display` of
/// integers) gives the decimal numeral, without sign or leading zeros.
#[verifier::external_body]
pub(crate) fn index_to_string(i: usize) -> (r: String)
    ensures
        r@ == decimal(i as nat),
{
    i.to_string()
}

/// `str::parse::<usize>`: its documentation says that it accepts an
/// optional `+` followed by one or more decimal digits, and fails on
/// anything else or on a value that does not fit in `usize`.
#[verifier::external_body]
pub(crate) fn parse_index(s: &String) -> (r: Option<usize>)
    ensures
        r == parse_usize_spec(s@),
{
    s.parse::<usize>().ok()
}

} // verus!
