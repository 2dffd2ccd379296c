//! The JSON document model that selections run on.
use vstd::prelude::*;
use vstd::arithmetic::power2::pow2;
use vstd::string::StrSliceExecFns;

verus! {

/// How a JSON number was written: a non-negative integer, a negative
/// integer, or a floating-point number (kept as its IEEE-754 bit pattern).
#[derive(Clone, Copy)]
pub enum NumberRepr {
    PosInt(u64),
    NegInt(i64),
    Float(u64),
}

/// A JSON number: its written form, and the bit pattern of its value as an
/// IEEE-754 double, which is what numeric comparisons and index conversion use.
#[derive(Clone, Copy)]
pub struct JsonNumber {
    pub repr: NumberRepr,
    pub f64_bits: u64,
}

/// A JSON value. Object members keep the order in which the document
/// lists them.
pub enum JsonValue {
    Null,
    Bool(bool),
    Number(JsonNumber),
    String(String),
    Array(Vec<JsonValue>),
    Object(Vec<(String, JsonValue)>),
}

impl JsonValue {
    /// Number of direct children (array elements or object members).
    pub open spec fn kid_count(self) -> nat {
        match self {
            JsonValue::Array(v) => v@.len(),
            JsonValue::Object(m) => m@.len(),
            _ => 0,
        }
    }

    /// The `i`-th direct child.
    pub open spec fn kid(self, i: int) -> JsonValue {
        match self {
            JsonValue::Array(v) => v@[i],
            JsonValue::Object(m) => m@[i].1,
            _ => JsonValue::Null,
        }
    }
}

/// The node reached from `v` by following the child positions in `path`.
pub open spec fn resolve(v: JsonValue, path: Seq<usize>) -> Option<JsonValue>
    decreases path.len(),
{
    if path.len() == 0 {
        Some(v)
    } else if path[0] < v.kid_count() {
        resolve(v.kid(path[0] as int), path.drop_first())
    } else {
        None
    }
}

/// Every path in `s`, with child position `i` put in front.
pub open spec fn prefixed(i: usize, s: Seq<Seq<usize>>) -> Seq<Seq<usize>> {
    s.map_values(|p: Seq<usize>| seq![i] + p)
}

/// Positions of all nodes of `v` in pre-order (a node before its
/// children, children in document order), each relative to `v`.
pub open spec fn preorder(v: JsonValue) -> Seq<Seq<usize>>
    decreases v,
{
    seq![Seq::<usize>::empty()] + match v {
        JsonValue::Array(a) => Seq::new(
            a@.len(),
            |i: int| if 0 <= i < a@.len() { prefixed(i as usize, preorder(a@[i])) } else { Seq::empty() },
        ).flatten(),
        JsonValue::Object(m) => Seq::new(
            m@.len(),
            |i: int| if 0 <= i < m@.len() { prefixed(i as usize, preorder(m@[i].1)) } else { Seq::empty() },
        ).flatten(),
        _ => Seq::empty(),
    }
}

// ---------------------------------------------------------------------------
// Numbers, by the IEEE-754 bit pattern of their double value.

pub open spec fn sign_bit() -> int {
    0x8000_0000_0000_0000
}

/// Biased exponent field of a double.
pub open spec fn exponent_field(bits: u64) -> int {
    (bits as int / 0x10_0000_0000_0000) % 2048
}

/// Fraction field of a double.
pub open spec fn fraction_field(bits: u64) -> int {
    bits as int % 0x10_0000_0000_0000
}

pub open spec fn is_nan_bits(bits: u64) -> bool {
    exponent_field(bits) == 2047 && fraction_field(bits) != 0
}

/// An integer that orders doubles as their values do: smaller value,
/// smaller key, with +0 and -0 both mapped to 0 (meaningless for NaN).
pub open spec fn order_key(bits: u64) -> int {
    if bits < sign_bit() {
        bits as int
    } else {
        sign_bit() - bits
    }
}

/// `floor(|x|)` for a finite double `x` given by its bits.
pub open spec fn trunc_magnitude(bits: u64) -> int {
    let e = exponent_field(bits);
    let m = 0x10_0000_0000_0000 + fraction_field(bits);
    if e == 0 {
        0
    } else if e < 1075 {
        m / pow2((1075 - e) as nat) as int
    } else {
        m * pow2((e - 1075) as nat)
    }
}

/// What `x as isize` gives for the double `x` with these bits: the value
/// rounded toward zero and saturated to the range of `isize`, 0 for NaN.
pub open spec fn double_as_isize(bits: u64) -> int {
    let neg = bits as int >= sign_bit();
    if is_nan_bits(bits) {
        0
    } else if exponent_field(bits) == 2047 {
        if neg { isize::MIN as int } else { isize::MAX as int }
    } else {
        let v = if neg { -trunc_magnitude(bits) } else { trunc_magnitude(bits) };
        if v < isize::MIN { isize::MIN as int } else if v > isize::MAX { isize::MAX as int } else { v }
    }
}

/// Whether two JSON numbers are equal as serde_json compares them: same
/// written kind and equal value (doubles compared as doubles).
pub open spec fn number_eq(a: JsonNumber, b: JsonNumber) -> bool {
    match (a.repr, b.repr) {
        (NumberRepr::PosInt(x), NumberRepr::PosInt(y)) => x == y,
        (NumberRepr::NegInt(x), NumberRepr::NegInt(y)) => x == y,
        (NumberRepr::Float(x), NumberRepr::Float(y)) => !is_nan_bits(x) && !is_nan_bits(y)
            && order_key(x) == order_key(y),
        _ => false,
    }
}

/// Deep equality of JSON values: same kind, equal scalars, arrays equal
/// element by element, objects equal member by member in order (keys and
/// values). For objects that list their members in key order, each key
/// once, as serde_json's maps keep them, this is equality of the maps.
pub open spec fn json_eq(a: JsonValue, b: JsonValue) -> bool
    decreases a,
{
    match a {
        JsonValue::Null => b is Null,
        JsonValue::Bool(x) => b matches JsonValue::Bool(y) && x == y,
        JsonValue::Number(x) => b matches JsonValue::Number(y) && number_eq(x, y),
        JsonValue::String(x) => b matches JsonValue::String(y) && x@ == y@,
        JsonValue::Array(x) => match b {
            JsonValue::Array(y) => x@.len() == y@.len() && forall|i: int|
                0 <= i < x@.len() ==> json_eq(x@[i], #[trigger] y@[i]),
            _ => false,
        },
        JsonValue::Object(x) => match b {
            JsonValue::Object(y) => x@.len() == y@.len() && forall|i: int|
                0 <= i < x@.len() ==> x@[i].0@ == (#[trigger] y@[i]).0@ && json_eq(x@[i].1, y@[i].1),
            _ => false,
        },
    }
}

impl JsonNumber {
    /// The number that a double with these bits is, written as a double.
    pub fn from_f64_bits(bits: u64) -> (n: JsonNumber)
        ensures
            n.repr == NumberRepr::Float(bits),
            n.f64_bits == bits,
    {
        JsonNumber { repr: NumberRepr::Float(bits), f64_bits: bits }
    }
}

pub fn is_nan(bits: u64) -> (r: bool)
    ensures
        r == is_nan_bits(bits),
{
    (bits / 0x10_0000_0000_0000) % 2048 == 2047 && bits % 0x10_0000_0000_0000 != 0
}

pub fn number_order_key(bits: u64) -> (k: i64)
    ensures
        k == order_key(bits),
{
    if bits < 0x8000_0000_0000_0000 {
        bits as i64
    } else {
        -((bits - 0x8000_0000_0000_0000) as i64)
    }
}

/// `x as isize` for the double `x` with these bits.
pub fn f64_bits_as_isize(bits: u64) -> (r: isize)
    ensures
        r == double_as_isize(bits),
{
    let e: u64 = (bits / 0x10_0000_0000_0000) % 2048;
    let m: u64 = 0x10_0000_0000_0000 + bits % 0x10_0000_0000_0000;
    let neg: bool = bits >= 0x8000_0000_0000_0000;
    if e == 2047 {
        if bits % 0x10_0000_0000_0000 != 0 {
            return 0;
        }
        return if neg { isize::MIN } else { isize::MAX };
    }
    // magnitude, or None when it is 2^63 or more
    let mag: Option<u64> = if e == 0 {
        Some(0)
    } else if e < 1075 {
        let s: u64 = 1075 - e;
        if s >= 64 {
            proof {
                vstd::arithmetic::power2::lemma_pow2_strictly_increases(53, s as nat);
                vstd::arithmetic::power2::lemma2_to64();
                vstd::arithmetic::power2::lemma2_to64_rest();
                assert(m < 0x20_0000_0000_0000);
                assert(pow2(53) == 0x20_0000_0000_0000);
                vstd::arithmetic::div_mod::lemma_basic_div(m as int, pow2(s as nat) as int);
            }
            Some(0)
        } else {
            proof { vstd::bits::lemma_u64_shr_is_div(m, s); }
            Some(m >> s)
        }
    } else if e < 1086 {
        let s: u64 = e - 1075;
        proof {
            vstd::arithmetic::power2::lemma2_to64();
                vstd::arithmetic::power2::lemma2_to64_rest();
            vstd::arithmetic::power2::lemma_pow2_strictly_increases(s as nat, 11);
            vstd::arithmetic::mul::lemma_mul_strict_inequality(m as int, 0x20_0000_0000_0000, pow2(s as nat) as int);
            vstd::arithmetic::mul::lemma_mul_inequality(pow2(s as nat) as int, 2048, 0x20_0000_0000_0000);
            vstd::bits::lemma_u64_shl_is_mul(m, s);
        }
        Some(m << s)
    } else {
        proof {
            vstd::arithmetic::power2::lemma2_to64();
                vstd::arithmetic::power2::lemma2_to64_rest();
            if e > 1086 {
                vstd::arithmetic::power2::lemma_pow2_strictly_increases(11, (e - 1075) as nat);
            }
            vstd::arithmetic::mul::lemma_mul_inequality(0x10_0000_0000_0000, m as int, pow2((e - 1075) as nat) as int);
            vstd::arithmetic::mul::lemma_mul_inequality(2048, pow2((e - 1075) as nat) as int, 0x10_0000_0000_0000);
        }
        None
    };
    match mag {
        Some(g) => {
            if neg {
                if g as u128 > (isize::MAX as u128) + 1 {
                    isize::MIN
                } else if g as u128 == (isize::MAX as u128) + 1 {
                    isize::MIN
                } else {
                    -(g as isize)
                }
            } else {
                if g as u128 > isize::MAX as u128 {
                    isize::MAX
                } else {
                    g as isize
                }
            }
        },
        None => if neg { isize::MIN } else { isize::MAX },
    }
}


/// Whether two numbers are equal as serde_json compares them.
pub fn number_equal(a: &JsonNumber, b: &JsonNumber) -> (r: bool)
    ensures
        r == number_eq(*a, *b),
{
    match (a.repr, b.repr) {
        (NumberRepr::PosInt(x), NumberRepr::PosInt(y)) => x == y,
        (NumberRepr::NegInt(x), NumberRepr::NegInt(y)) => x == y,
        (NumberRepr::Float(x), NumberRepr::Float(y)) => !is_nan(x) && !is_nan(y)
            && number_order_key(x) == number_order_key(y),
        _ => false,
    }
}

/// Deep equality of two JSON values, as `==` on serde_json values.
pub fn json_equal(a: &JsonValue, b: &JsonValue) -> (r: bool)
    ensures
        r == json_eq(*a, *b),
    decreases a,
{
    match a {
        JsonValue::Null => match b {
            JsonValue::Null => true,
            _ => false,
        },
        JsonValue::Bool(x) => match b {
            JsonValue::Bool(y) => *x == *y,
            _ => false,
        },
        JsonValue::Number(x) => match b {
            JsonValue::Number(y) => number_equal(x, y),
            _ => false,
        },
        JsonValue::String(x) => match b {
            JsonValue::String(y) => *x == *y,
            _ => false,
        },
        JsonValue::Array(x) => match b {
            JsonValue::Array(y) => {
                if x.len() != y.len() {
                    return false;
                }
                let mut i: usize = 0;
                while i < x.len()
                    invariant
                        i <= x@.len(),
                        x@.len() == y@.len(),
                        *a == JsonValue::Array(*x),
                        *b == JsonValue::Array(*y),
                        forall|j: int| 0 <= j < i ==> json_eq(x@[j], #[trigger] y@[j]),
                    decreases x@.len() - i,
                {
                    proof {
                        assert(decreases_to!(*a => (*a)->Array_0));
                        assert(decreases_to!(*x => x@[i as int]));
                        assert(decreases_to!(*a => x@[i as int]));
                    }
                    if !json_equal(&x[i], &y[i]) {
                        return false;
                    }
                    i = i + 1;
                }
                true
            },
            _ => false,
        },
        JsonValue::Object(x) => match b {
            JsonValue::Object(y) => {
                if x.len() != y.len() {
                    return false;
                }
                let mut i: usize = 0;
                while i < x.len()
                    invariant
                        i <= x@.len(),
                        x@.len() == y@.len(),
                        *a == JsonValue::Object(*x),
                        *b == JsonValue::Object(*y),
                        forall|j: int| 0 <= j < i ==> x@[j].0@ == (#[trigger] y@[j]).0@ && json_eq(x@[j].1, y@[j].1),
                    decreases x@.len() - i,
                {
                    proof {
                        assert(decreases_to!(*a => (*a)->Object_0));
                        assert(decreases_to!(*x => x@[i as int]));
                        assert(decreases_to!(x@[i as int] => x@[i as int].1));
                        assert(decreases_to!(*a => x@[i as int].1));
                    }
                    if x[i].0 != y[i].0 || !json_equal(&x[i].1, &y[i].1) {
                        return false;
                    }
                    i = i + 1;
                }
                true
            },
            _ => false,
        },
    }
}

/// Equality of JSON values is symmetric.
pub proof fn lemma_json_eq_symmetric(a: JsonValue, b: JsonValue)
    requires
        json_eq(a, b),
    ensures
        json_eq(b, a),
    decreases a,
{
    match (a, b) {
        (JsonValue::Array(x), JsonValue::Array(y)) => {
            assert forall|i: int| 0 <= i < y@.len() implies json_eq(y@[i], #[trigger] x@[i]) by {
                assert(json_eq(x@[i], y@[i]));
                lemma_json_eq_symmetric(x@[i], y@[i]);
            }
        },
        (JsonValue::Object(x), JsonValue::Object(y)) => {
            assert forall|i: int| 0 <= i < y@.len() implies y@[i].0@ == (#[trigger] x@[i]).0@ && json_eq(y@[i].1, x@[i].1) by {
                assert(x@[i].0@ == y@[i].0@ && json_eq(x@[i].1, y@[i].1));
                assert(decreases_to!(a => x@[i].1)) by {
                    assert(decreases_to!(a => x@[i]));
                }
                lemma_json_eq_symmetric(x@[i].1, y@[i].1);
            }
        },
        _ => {},
    }
}

/// Equality of JSON values is transitive.
pub proof fn lemma_json_eq_transitive(a: JsonValue, b: JsonValue, c: JsonValue)
    requires
        json_eq(a, b),
        json_eq(b, c),
    ensures
        json_eq(a, c),
    decreases a,
{
    match (a, b, c) {
        (JsonValue::Array(x), JsonValue::Array(y), JsonValue::Array(z)) => {
            assert forall|i: int| 0 <= i < x@.len() implies json_eq(x@[i], #[trigger] z@[i]) by {
                assert(json_eq(x@[i], y@[i]));
                assert(json_eq(y@[i], z@[i]));
                lemma_json_eq_transitive(x@[i], y@[i], z@[i]);
            }
        },
        (JsonValue::Object(x), JsonValue::Object(y), JsonValue::Object(z)) => {
            assert forall|i: int| 0 <= i < x@.len() implies x@[i].0@ == (#[trigger] z@[i]).0@ && json_eq(x@[i].1, z@[i].1) by {
                assert(x@[i].0@ == y@[i].0@ && json_eq(x@[i].1, y@[i].1));
                assert(y@[i].0@ == z@[i].0@ && json_eq(y@[i].1, z@[i].1));
                assert(decreases_to!(a => x@[i].1)) by {
                    assert(decreases_to!(a => x@[i]));
                }
                lemma_json_eq_transitive(x@[i].1, y@[i].1, z@[i].1);
            }
        },
        _ => {},
    }
}

} // verus!
