use vstd::prelude::*;
use crate::text::{text_lt, lemma_bytes_lt_transitive, lemma_bytes_lt_asymmetric, str_lt};

verus! {

/// The semantic type that a field's raw token is coerced to.
#[derive(Clone, Copy, Debug, PartialEq, Eq, Structural)]
pub enum LogValueType {
    String,
    Integer,
    Float,
    Second,
    Unspecified,
}

/// A resolved or accumulated value. `Float` and `Second` hold millionths.
#[derive(Clone, Debug)]
pub enum LogValue {
    Absent,
    String(String),
    Integer(i64),
    Float(i64),
    Second(i64),
}

/// The mathematical content of a `LogValue`.
pub enum Val {
    Absent,
    Text(Seq<char>),
    Integer(int),
    Float(int),
    Second(int),
}

impl View for LogValue {
    type V = Val;

    open spec fn view(&self) -> Val {
        match self {
            LogValue::Absent => Val::Absent,
            LogValue::String(s) => Val::Text(s@),
            LogValue::Integer(i) => Val::Integer(*i as int),
            LogValue::Float(m) => Val::Float(*m as int),
            LogValue::Second(m) => Val::Second(*m as int),
        }
    }
}

/// Place of each variant in the order: absence sorts first.
pub open spec fn rank(v: Val) -> int {
    match v {
        Val::Absent => 0,
        Val::Text(_) => 1,
        Val::Integer(_) => 2,
        Val::Float(_) => 3,
        Val::Second(_) => 4,
    }
}

/// The total order on values: by variant, then naturally within a variant.
pub open spec fn val_lt(a: Val, b: Val) -> bool {
    if rank(a) != rank(b) {
        rank(a) < rank(b)
    } else {
        match (a, b) {
            (Val::Text(x), Val::Text(y)) => text_lt(x, y),
            (Val::Integer(x), Val::Integer(y)) => x < y,
            (Val::Float(x), Val::Float(y)) => x < y,
            (Val::Second(x), Val::Second(y)) => x < y,
            _ => false,
        }
    }
}

/// The order on values is a strict order.
pub proof fn lemma_val_lt_strict(a: Val, b: Val, c: Val)
    ensures
        val_lt(a, b) && val_lt(b, c) ==> val_lt(a, c),
        !(val_lt(a, b) && val_lt(b, a)),
{
    match (a, b) {
        (Val::Text(x), Val::Text(y)) => {
            lemma_bytes_lt_asymmetric(vstd::utf8::encode_utf8(x), vstd::utf8::encode_utf8(y));
            if let Val::Text(z) = c {
                if val_lt(a, b) && val_lt(b, c) {
                    lemma_bytes_lt_transitive(
                        vstd::utf8::encode_utf8(x),
                        vstd::utf8::encode_utf8(y),
                        vstd::utf8::encode_utf8(z),
                    );
                }
            }
        },
        _ => {},
    }
}

impl LogValue {
    /// Whether this value sorts strictly before `other`.
    pub fn lt(&self, other: &LogValue) -> (r: bool)
        ensures
            r == val_lt(self@, other@),
    {
        match (self, other) {
            (LogValue::String(x), LogValue::String(y)) => str_lt(x.as_str(), y.as_str()),
            (LogValue::Integer(x), LogValue::Integer(y)) => *x < *y,
            (LogValue::Float(x), LogValue::Float(y)) => *x < *y,
            (LogValue::Second(x), LogValue::Second(y)) => *x < *y,
            _ => self.rank() < other.rank(),
        }
    }

    fn rank(&self) -> (r: u8)
        ensures
            r == rank(self@),
    {
        match self {
            LogValue::Absent => 0,
            LogValue::String(_) => 1,
            LogValue::Integer(_) => 2,
            LogValue::Float(_) => 3,
            LogValue::Second(_) => 4,
        }
    }

    /// Whether the two values are equal.
    pub fn same(&self, other: &LogValue) -> (r: bool)
        ensures
            r == (self@ == other@),
    {
        if self.rank() != other.rank() {
            return false;
        }
        match (self, other) {
            (LogValue::Absent, LogValue::Absent) => true,
            (LogValue::String(x), LogValue::String(y)) => x.eq(y),
            (LogValue::Integer(x), LogValue::Integer(y)) => *x == *y,
            (LogValue::Float(x), LogValue::Float(y)) => *x == *y,
            (LogValue::Second(x), LogValue::Second(y)) => *x == *y,
            _ => false,
        }
    }
}

impl PartialEq for LogValue {
    fn eq(&self, other: &LogValue) -> (r: bool) {
        self.same(other)
    }
}

impl vstd::std_specs::cmp::PartialEqSpecImpl for LogValue {
    open spec fn obeys_eq_spec() -> bool {
        true
    }

    open spec fn eq_spec(&self, other: &LogValue) -> bool {
        self@ == other@
    }
}

} // verus!
