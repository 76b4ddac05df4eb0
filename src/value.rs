//! The runtime's tagged values, BSON values, and declared field types.
use vstd::prelude::*;

verus! {

broadcast use vstd::std_specs::vec::group_vec_axioms;

/// A runtime value.
///
/// Floating-point numbers are held as IEEE-754 bit patterns of their 64-bit
/// representation; a `F32` is kept widened, its narrowing to 32 bits belongs
/// to the runtime side. `Date` is a day number counted from 1970-01-01 and
/// `DateTime` a count of milliseconds since the Unix epoch (UTC).
#[derive(Debug, PartialEq)]
pub enum Value {
    Null,
    Bool(bool),
    I32(i32),
    I64(i64),
    F32(u64),
    F64(u64),
    Decimal(String),
    String(String),
    ObjectId([u8; 12]),
    Date(i32),
    DateTime(i64),
    EnumVariant(String),
    Array(Vec<Value>),
    Dictionary(Vec<(String, Value)>),
}

/// A BSON value. Element kinds that this core never produces or reads are
/// kept as `Other`, with their BSON element type byte.
#[derive(Debug, PartialEq)]
pub enum Bson {
    Null,
    Boolean(bool),
    Int32(i32),
    Int64(i64),
    Double(u64),
    String(String),
    ObjectId([u8; 12]),
    DateTime(i64),
    Array(Vec<Bson>),
    Document(Vec<(String, Bson)>),
    Other(u8),
}

impl Bson {
    /// Whether this is the BSON null.
    pub fn is_null(&self) -> (r: bool)
        ensures
            r == (*self is Null),
    {
        match self {
            Bson::Null => true,
            _ => false,
        }
    }
}

/// A declared field type. Enum types carry their resolved path and member
/// names; nested array and dictionary types carry their element optionality.
#[derive(Debug, PartialEq)]
pub enum FieldType {
    Int,
    Int64,
    Float32,
    Float,
    Bool,
    String,
    ObjectId,
    Date,
    DateTime,
    Decimal,
    EnumVariant { path: Vec<String>, members: Vec<String> },
    Array { inner: Box<FieldType>, optional: bool },
    Dictionary { inner: Box<FieldType>, optional: bool },
}

/// `r` is the position of the first entry under `key`, or `None` if no
/// entry has that key.
pub open spec fn is_entry_at<V>(entries: Seq<(String, V)>, key: Seq<char>, r: Option<usize>) -> bool {
    match r {
        Some(i) => i < entries.len() && entries[i as int].0@ == key && forall|j: int|
            0 <= j < i ==> (#[trigger] entries[j]).0@ != key,
        None => forall|j: int| 0 <= j < entries.len() ==> (#[trigger] entries[j]).0@ != key,
    }
}

/// Some entry is under `key`.
pub open spec fn has_entry<V>(entries: Seq<(String, V)>, key: Seq<char>) -> bool {
    exists|j: int| 0 <= j < entries.len() && (#[trigger] entries[j]).0@ == key
}

/// The position of the first entry under `key`.
pub fn find_entry<V>(doc: &Vec<(String, V)>, key: &String) -> (r: Option<usize>)
    ensures
        is_entry_at(doc@, key@, r),
{
    let mut i: usize = 0;
    while i < doc.len()
        invariant
            i <= doc@.len(),
            forall|j: int| 0 <= j < i ==> (#[trigger] doc@[j]).0@ != key@,
        decreases doc@.len() - i,
    {
        if doc[i].0 == *key {
            return Some(i);
        }
        i = i + 1;
    }
    None
}

/// An entry lookup finds something exactly when some entry has the key.
pub proof fn lemma_entry_lookup<V>(entries: Seq<(String, V)>, key: Seq<char>, r: Option<usize>)
    requires
        is_entry_at(entries, key, r),
    ensures
        r is Some <==> has_entry(entries, key),
{
    if r is Some {
        assert(entries[r->Some_0 as int].0@ == key);
    }
}

/// The first entry under a key is unique.
pub proof fn lemma_entry_unique<V>(entries: Seq<(String, V)>, key: Seq<char>, a: Option<usize>, b: Option<usize>)
    requires
        is_entry_at(entries, key, a),
        is_entry_at(entries, key, b),
    ensures
        a == b,
{
    match (a, b) {
        (Some(x), Some(y)) => {
            if x < y {
                assert(entries[x as int].0@ == key);
            } else if y < x {
                assert(entries[y as int].0@ == key);
            }
        },
        (Some(x), None) => {
            assert(entries[x as int].0@ == key);
        },
        (None, Some(y)) => {
            assert(entries[y as int].0@ == key);
        },
        _ => {},
    }
}

/// `b` is a copy of `a`: the same variant and contents, element for element.
pub open spec fn same_value(a: Value, b: Value) -> bool
    decreases a,
{
    match a {
        Value::Array(vs) => b matches Value::Array(ws) && ws@.len() == vs@.len() && forall|i: int|
            0 <= i < vs@.len() ==> same_value(#[trigger] vs@[i], ws@[i]),
        Value::Dictionary(es) => b matches Value::Dictionary(fs) && fs@.len() == es@.len()
            && forall|i: int|
            0 <= i < es@.len() ==> (#[trigger] es@[i]).0 == fs@[i].0 && same_value(es@[i].1, fs@[i].1),
        _ => b == a,
    }
}

/// `b` is a copy of `a`, where both are present or both absent.
pub open spec fn same_option(a: Option<Value>, b: Option<Value>) -> bool {
    match a {
        Some(x) => b matches Some(y) && same_value(x, y),
        None => b is None,
    }
}

/// The referenced value, if any.
pub open spec fn deref_option(o: Option<&Value>) -> Option<Value> {
    match o {
        Some(x) => Some(*x),
        None => None,
    }
}

/// The value of the first entry under `key`.
pub open spec fn lookup(es: Seq<(String, Value)>, key: Seq<char>) -> Option<Value>
    decreases es.len(),
{
    if es.len() == 0 {
        None
    } else if es[0].0@ == key {
        Some(es[0].1)
    } else {
        lookup(es.drop_first(), key)
    }
}

/// The value under `key` of a dictionary; nothing for anything else.
pub open spec fn get_in(v: Option<Value>, key: Seq<char>) -> Option<Value> {
    match v {
        Some(Value::Dictionary(es)) => lookup(es@, key),
        _ => None,
    }
}

/// A copy of a value.
pub fn copy_value(v: &Value) -> (r: Value)
    ensures
        same_value(*v, r),
    decreases *v,
{
    match v {
        Value::Null => Value::Null,
        Value::Bool(x) => Value::Bool(*x),
        Value::I32(x) => Value::I32(*x),
        Value::I64(x) => Value::I64(*x),
        Value::F32(x) => Value::F32(*x),
        Value::F64(x) => Value::F64(*x),
        Value::Decimal(x) => Value::Decimal(x.clone()),
        Value::String(x) => Value::String(x.clone()),
        Value::ObjectId(x) => Value::ObjectId(*x),
        Value::Date(x) => Value::Date(*x),
        Value::DateTime(x) => Value::DateTime(*x),
        Value::EnumVariant(x) => Value::EnumVariant(x.clone()),
        Value::Array(vs) => Value::Array(copy_values(vs)),
        Value::Dictionary(es) => Value::Dictionary(copy_entries(es)),
    }
}

/// A copy of each value, in order.
pub fn copy_values(vs: &Vec<Value>) -> (r: Vec<Value>)
    ensures
        r@.len() == vs@.len(),
        forall|i: int| 0 <= i < vs@.len() ==> same_value(#[trigger] vs@[i], r@[i]),
    decreases *vs,
{
    let mut r: Vec<Value> = Vec::new();
    let mut i: usize = 0;
    while i < vs.len()
        invariant
            i <= vs@.len(),
            r@.len() == i,
            forall|k: int| 0 <= k < i ==> same_value(#[trigger] vs@[k], r@[k]),
        decreases vs@.len() - i,
    {
        proof {
            assert(decreases_to!(*vs => vs[i as int]));
        }
        r.push(copy_value(&vs[i]));
        i = i + 1;
    }
    r
}

/// A copy of each entry, keys kept, in order.
pub fn copy_entries(es: &Vec<(String, Value)>) -> (r: Vec<(String, Value)>)
    ensures
        r@.len() == es@.len(),
        forall|i: int|
            0 <= i < es@.len() ==> (#[trigger] es@[i]).0 == r@[i].0 && same_value(es@[i].1, r@[i].1),
    decreases *es,
{
    let mut r: Vec<(String, Value)> = Vec::new();
    let mut i: usize = 0;
    while i < es.len()
        invariant
            i <= es@.len(),
            r@.len() == i,
            forall|k: int|
                0 <= k < i ==> (#[trigger] es@[k]).0 == r@[k].0 && same_value(es@[k].1, r@[k].1),
        decreases es@.len() - i,
    {
        let e = &es[i];
        proof {
            assert(decreases_to!(*es => es[i as int]));
        }
        r.push((e.0.clone(), copy_value(&e.1)));
        i = i + 1;
    }
    r
}

/// A copy of the referenced value, if any.
pub fn copy_option(o: Option<&Value>) -> (r: Option<Value>)
    ensures
        same_option(deref_option(o), r),
{
    match o {
        Some(v) => Some(copy_value(v)),
        None => None,
    }
}

/// The value under `key` of a dictionary, if `v` is one and has the key.
pub fn get_in_value<'a>(v: Option<&'a Value>, key: &str) -> (r: Option<&'a Value>)
    ensures
        deref_option(r) == get_in(deref_option(v), key@),
{
    match v {
        Some(Value::Dictionary(es)) => {
            let mut i: usize = 0;
            assert(es@.subrange(0, es@.len() as int) == es@);
            while i < es.len()
                invariant
                    i <= es@.len(),
                    deref_option(v) == Some(Value::Dictionary(*es)),
                    lookup(es@, key@) == lookup(es@.subrange(i as int, es@.len() as int), key@),
                decreases es@.len() - i,
            {
                let ghost rest = es@.subrange(i as int, es@.len() as int);
                assert(rest.drop_first() == es@.subrange(i + 1, es@.len() as int));
                assert(rest[0] == es@[i as int]);
                if str_equal(es[i].0.as_str(), key) {
                    return Some(&es[i].1);
                }
                i = i + 1;
            }
            None
        },
        _ => None,
    }
}

/// Whether two strings are equal.
///
/// Relies on `<str as PartialEq>::eq`: equal exactly when the characters are.
#[verifier::external_body]
fn str_equal(a: &str, b: &str) -> (r: bool)
    ensures
        r == (a@ == b@),
{
    a == b
}

} // verus!
