use vstd::prelude::*;
use crate::text::{int_of, fixed_of, parse_int, parse_fixed};
use crate::value::{LogValue, LogValueType, Val};

verus! {

/// A terminal value of a decoded record, in its textual form.
#[derive(Clone, Debug)]
pub enum Leaf {
    /// An explicit null.
    Null,
    /// A number, as written.
    Number(String),
    /// A string, or a boolean as `true` / `false`.
    Text(String),
    /// An array or an empty mapping: not descended into.
    Compound,
}

/// One terminal value together with the chain of keys that leads to it.
#[derive(Clone, Debug)]
pub struct Entry {
    pub path: Vec<String>,
    pub leaf: Leaf,
}

/// A decoded record: a nested mapping, flattened into its terminal values.
#[derive(Clone, Debug)]
pub struct LogRecord {
    pub entries: Vec<Entry>,
}

/// Describes where a value lies in a record and what type it is read as.
#[derive(Clone, Debug)]
pub struct Accessor {
    pub name: String,
    pub path: Vec<String>,
    pub dtype: LogValueType,
}

pub open spec fn strs(v: Seq<String>) -> Seq<Seq<char>> {
    v.map_values(|s: String| s@)
}

/// Pieces of `s` between the occurrences of `c`, in order.
pub open spec fn split_on(s: Seq<char>, c: char) -> Seq<Seq<char>>
    decreases s.len(),
{
    if s.len() == 0 {
        seq![Seq::empty()]
    } else {
        let r = split_on(s.drop_last(), c);
        if s.last() == c {
            r.push(Seq::empty())
        } else {
            r.update(r.len() - 1, r.last().push(s.last()))
        }
    }
}

/// The leaf of the first entry whose key chain is `p`.
pub open spec fn find_leaf(entries: Seq<Entry>, p: Seq<Seq<char>>) -> Option<Leaf>
    decreases entries.len(),
{
    if entries.len() == 0 {
        None
    } else if strs(entries[0].path@) == p {
        Some(entries[0].leaf)
    } else {
        find_leaf(entries.drop_first(), p)
    }
}

/// A leaf read as type `t`; what cannot be read so is absent.
pub open spec fn coerced(leaf: Leaf, t: LogValueType) -> Val {
    match leaf {
        Leaf::Text(s) => match t {
            LogValueType::String | LogValueType::Unspecified => Val::Text(s@),
            _ => coerced_number(s@, t),
        },
        Leaf::Number(s) => match t {
            LogValueType::String => Val::Text(s@),
            _ => coerced_number(s@, t),
        },
        _ => Val::Absent,
    }
}

/// A token read as a number of type `t` (any number, where `t` is unspecified).
pub open spec fn coerced_number(s: Seq<char>, t: LogValueType) -> Val {
    match t {
        LogValueType::Integer => match int_of(s) {
            Some(v) => Val::Integer(v),
            None => Val::Absent,
        },
        LogValueType::Float => match fixed_of(s) {
            Some(v) => Val::Float(v),
            None => Val::Absent,
        },
        LogValueType::Second => match fixed_of(s) {
            Some(v) => Val::Second(v),
            None => Val::Absent,
        },
        _ => match int_of(s) {
            Some(v) => Val::Integer(v),
            None => match fixed_of(s) {
                Some(v) => Val::Float(v),
                None => Val::Absent,
            },
        },
    }
}

/// The value that `acc` finds in `rec`.
pub open spec fn resolved(rec: LogRecord, acc: Accessor) -> Val {
    match find_leaf(rec.entries@, strs(acc.path@)) {
        Some(leaf) => coerced(leaf, acc.dtype),
        None => Val::Absent,
    }
}

/// Relies on str::split: the pieces of `s` between the dots, in order.
#[verifier::external_body]
fn split_dots(s: &str) -> (r: Vec<String>)
    ensures
        strs(r@) == split_on(s@, '.'),
{
    s.split('.').map(|p| p.to_string()).collect()
}

fn number_as(s: &String, t: LogValueType) -> (r: LogValue)
    ensures
        r@ == coerced_number(s@, t),
{
    match t {
        LogValueType::Integer => match parse_int(s.as_str()) {
            Some(v) => LogValue::Integer(v),
            None => LogValue::Absent,
        },
        LogValueType::Float => match parse_fixed(s.as_str()) {
            Some(v) => LogValue::Float(v),
            None => LogValue::Absent,
        },
        LogValueType::Second => match parse_fixed(s.as_str()) {
            Some(v) => LogValue::Second(v),
            None => LogValue::Absent,
        },
        _ => match parse_int(s.as_str()) {
            Some(v) => LogValue::Integer(v),
            None => match parse_fixed(s.as_str()) {
                Some(v) => LogValue::Float(v),
                None => LogValue::Absent,
            },
        },
    }
}

/// Reads a leaf as type `t`.
pub fn coerce(leaf: &Leaf, t: LogValueType) -> (r: LogValue)
    ensures
        r@ == coerced(*leaf, t),
{
    match leaf {
        Leaf::Text(s) => match t {
            LogValueType::String | LogValueType::Unspecified => LogValue::String(s.clone()),
            _ => number_as(s, t),
        },
        Leaf::Number(s) => match t {
            LogValueType::String => LogValue::String(s.clone()),
            _ => number_as(s, t),
        },
        _ => LogValue::Absent,
    }
}

fn same_path(a: &Vec<String>, b: &Vec<String>) -> (r: bool)
    ensures
        r == (strs(a@) == strs(b@)),
{
    if a.len() != b.len() {
        assert(strs(a@).len() != strs(b@).len());
        return false;
    }
    let mut i: usize = 0;
    while i < a.len()
        invariant
            a@.len() == b@.len(),
            i <= a@.len(),
            forall|k: int| 0 <= k < i ==> (#[trigger] a@[k])@ == b@[k]@,
        decreases a@.len() - i,
    {
        if !a[i].eq(&b[i]) {
            assert(strs(a@)[i as int] != strs(b@)[i as int]);
            return false;
        }
        i = i + 1;
    }
    assert(strs(a@) =~= strs(b@));
    true
}

impl Accessor {
    /// An accessor named `name` for the dotted path `accessor`.
    pub fn from_string(name: &str, accessor: &str, dtype: LogValueType) -> (r: Accessor)
        ensures
            r.name@ == name@,
            strs(r.path@) == split_on(accessor@, '.'),
            r.dtype == dtype,
    {
        Accessor { name: name.to_string(), path: split_dots(accessor), dtype }
    }

    /// A copy of this accessor.
    pub fn copied(&self) -> (r: Accessor)
        ensures
            r.name@ == self.name@,
            strs(r.path@) == strs(self.path@),
            r.dtype == self.dtype,
    {
        let mut path: Vec<String> = Vec::new();
        let mut i: usize = 0;
        while i < self.path.len()
            invariant
                i <= self.path@.len(),
                path@.len() == i,
                forall|k: int| 0 <= k < i ==> (#[trigger] path@[k])@ == self.path@[k]@,
            decreases self.path@.len() - i,
        {
            path.push(self.path[i].clone());
            i = i + 1;
        }
        assert(strs(path@) =~= strs(self.path@));
        Accessor { name: self.name.clone(), path, dtype: self.dtype }
    }
}

impl LogRecord {
    /// The value that `acc` finds: the first entry on its path, read as its
    /// type; absent where no entry lies on the path.
    pub fn resolve(&self, acc: &Accessor) -> (r: LogValue)
        ensures
            r@ == resolved(*self, *acc),
    {
        let mut i: usize = 0;
        assert(self.entries@.skip(0) =~= self.entries@);
        while i < self.entries.len()
            invariant
                i <= self.entries@.len(),
                find_leaf(self.entries@, strs(acc.path@)) == find_leaf(
                    self.entries@.skip(i as int),
                    strs(acc.path@),
                ),
            decreases self.entries@.len() - i,
        {
            let ghost rest = self.entries@.skip(i as int);
            assert(rest[0] == self.entries@[i as int]);
            if same_path(&self.entries[i].path, &acc.path) {
                return coerce(&self.entries[i].leaf, acc.dtype);
            }
            assert(rest.drop_first() =~= self.entries@.skip(i + 1));
            i = i + 1;
        }
        assert(self.entries@.skip(i as int).len() == 0);
        LogValue::Absent
    }
}

} // verus!
