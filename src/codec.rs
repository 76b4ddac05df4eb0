//! Type-directed conversion between runtime values and BSON.
use vstd::prelude::*;
use crate::error::{DbError, KeyPath, PathItem};
use crate::value::{Bson, FieldType, Value, same_value};
use vstd::arithmetic::div_mod::{
    lemma_div_is_ordered, lemma_fundamental_div_mod, lemma_fundamental_div_mod_converse,
    lemma_mod_pos_bound,
};

verus! {

broadcast use vstd::std_specs::vec::group_vec_axioms;

/// Milliseconds in a day.
pub const DAY_MILLIS: i64 = 86_400_000;

/// The earliest instant a runtime date-time can hold, in milliseconds since
/// the epoch (the first millisecond of year -262143).
pub const MIN_MILLIS: i64 = -8_334_601_315_200_000;

/// The latest instant a runtime date-time can hold, in milliseconds since
/// the epoch (the last millisecond of year 262142).
pub const MAX_MILLIS: i64 = 8_210_266_876_799_999;

/// The earliest runtime date, in days since 1970-01-01.
pub const MIN_DAY: i32 = -96_465_293;

/// The latest runtime date, in days since 1970-01-01.
pub const MAX_DAY: i32 = 95_026_236;

/// The message of the error raised for the unsupported `Decimal` scalar.
pub open spec fn decimal_message() -> Seq<char> {
    "Decimal is not implemented by MongoDB."@
}

/// The error raised where a `Decimal` meets the BSON boundary.
pub open spec fn is_decimal_error(e: DbError) -> bool {
    e matches DbError::Runtime { message } && message@ == decimal_message()
}

/// Some `Decimal` occurs in the value, at any depth.
pub open spec fn has_decimal(v: Value) -> bool
    decreases v,
{
    match v {
        Value::Decimal(_) => true,
        Value::Array(vs) => exists|i: int| 0 <= i < vs@.len() && has_decimal(#[trigger] vs@[i]),
        Value::Dictionary(es) => exists|i: int|
            0 <= i < es@.len() && has_decimal(#[trigger] es@[i].1),
        _ => false,
    }
}

/// `b` is the canonical BSON of the value `v`: scalars map tag for tag, a
/// date becomes the date-time of its UTC midnight, an enum member its name,
/// arrays and dictionaries element for element, in order.
pub open spec fn bson_of(v: Value, b: Bson) -> bool
    decreases v,
{
    match v {
        Value::Null => b == Bson::Null,
        Value::Bool(x) => b == Bson::Boolean(x),
        Value::I32(i) => b == Bson::Int32(i),
        Value::I64(i) => b == Bson::Int64(i),
        Value::F32(x) => b == Bson::Double(x),
        Value::F64(x) => b == Bson::Double(x),
        Value::Decimal(_) => false,
        Value::String(s) => b == Bson::String(s),
        Value::ObjectId(o) => b == Bson::ObjectId(o),
        Value::Date(d) => b matches Bson::DateTime(ms) && ms == d * DAY_MILLIS,
        Value::DateTime(ms) => b == Bson::DateTime(ms),
        Value::EnumVariant(s) => b == Bson::String(s),
        Value::Array(vs) => b matches Bson::Array(bs) && bs@.len() == vs@.len() && forall|i: int|
            0 <= i < vs@.len() ==> bson_of(#[trigger] vs@[i], bs@[i]),
        Value::Dictionary(es) => b matches Bson::Document(ds) && ds@.len() == es@.len()
            && forall|i: int|
            0 <= i < es@.len() ==> (#[trigger] ds@[i]).0 == es@[i].0 && bson_of(es@[i].1, ds@[i].1),
    }
}

/// `b` is the encoding of `v` at the declared type `t`: an `Int` field keeps
/// only a 32-bit integer and an `Int64` field only a 64-bit one (anything else
/// is written as null); nothing encodes at `Decimal`; every other type uses
/// the canonical mapping.
pub open spec fn encoded(t: FieldType, v: Value, b: Bson) -> bool {
    match t {
        FieldType::Decimal => false,
        FieldType::Int => match v {
            Value::I32(i) => b == Bson::Int32(i),
            _ => b == Bson::Null,
        },
        FieldType::Int64 => match v {
            Value::I64(i) => b == Bson::Int64(i),
            _ => b == Bson::Null,
        },
        _ => bson_of(v, b),
    }
}

/// Encoding `v` at type `t` fails: always at the `Decimal` type, and for a
/// value holding a `Decimal` under any other type that uses the canonical
/// mapping.
pub open spec fn encode_fails(t: FieldType, v: Value) -> bool {
    t is Decimal || (!(t is Int) && !(t is Int64) && has_decimal(v))
}

/// The error for an unsupported `Decimal`.
pub fn decimal_error() -> (e: DbError)
    ensures
        is_decimal_error(e),
{
    DbError::Runtime { message: String::from_str("Decimal is not implemented by MongoDB.") }
}

/// The canonical BSON of a value; fails exactly when a `Decimal` occurs in it.
pub fn value_to_bson(v: &Value) -> (r: Result<Bson, DbError>)
    ensures
        match r {
            Ok(b) => !has_decimal(*v) && bson_of(*v, b),
            Err(e) => has_decimal(*v) && is_decimal_error(e),
        },
    decreases *v,
{
    match v {
        Value::Null => Ok(Bson::Null),
        Value::Bool(x) => Ok(Bson::Boolean(*x)),
        Value::I32(i) => Ok(Bson::Int32(*i)),
        Value::I64(i) => Ok(Bson::Int64(*i)),
        Value::F32(x) => Ok(Bson::Double(*x)),
        Value::F64(x) => Ok(Bson::Double(*x)),
        Value::Decimal(_) => Err(decimal_error()),
        Value::String(s) => Ok(Bson::String(s.clone())),
        Value::ObjectId(o) => Ok(Bson::ObjectId(*o)),
        Value::Date(d) => {
            assert(i32::MIN * DAY_MILLIS <= *d * DAY_MILLIS <= i32::MAX * DAY_MILLIS)
                by (nonlinear_arith)
                requires i32::MIN <= *d <= i32::MAX;
            Ok(Bson::DateTime(*d as i64 * DAY_MILLIS))
        },
        Value::DateTime(ms) => Ok(Bson::DateTime(*ms)),
        Value::EnumVariant(s) => Ok(Bson::String(s.clone())),
        Value::Array(vs) => match values_to_bson(vs) {
            Ok(bs) => Ok(Bson::Array(bs)),
            Err(e) => Err(e),
        },
        Value::Dictionary(es) => match entries_to_bson(es) {
            Ok(ds) => Ok(Bson::Document(ds)),
            Err(e) => Err(e),
        },
    }
}

/// The canonical BSON of each value, in order; fails exactly when a
/// `Decimal` occurs in one of them.
pub fn values_to_bson(vs: &Vec<Value>) -> (r: Result<Vec<Bson>, DbError>)
    ensures
        match r {
            Ok(bs) => bs@.len() == vs@.len() && forall|j: int|
                0 <= j < vs@.len() ==> !has_decimal(#[trigger] vs@[j]) && bson_of(vs@[j], bs@[j]),
            Err(e) => (exists|j: int| 0 <= j < vs@.len() && has_decimal(#[trigger] vs@[j]))
                && is_decimal_error(e),
        },
    decreases *vs,
{
    let mut bs: Vec<Bson> = Vec::new();
    let mut i: usize = 0;
    while i < vs.len()
        invariant
            i <= vs@.len(),
            bs@.len() == i,
            forall|j: int| 0 <= j < i ==> !has_decimal(#[trigger] vs@[j]) && bson_of(vs@[j], bs@[j]),
        decreases vs@.len() - i,
    {
        proof {
            assert(decreases_to!(*vs => vs[i as int]));
        }
        match value_to_bson(&vs[i]) {
            Ok(b) => bs.push(b),
            Err(e) => {
                assert(has_decimal(vs@[i as int]));
                return Err(e);
            },
        }
        i = i + 1;
    }
    Ok(bs)
}

/// The canonical BSON of each entry's value, keys kept, in order; fails
/// exactly when a `Decimal` occurs in one of them.
pub fn entries_to_bson(es: &Vec<(String, Value)>) -> (r: Result<Vec<(String, Bson)>, DbError>)
    ensures
        match r {
            Ok(ds) => ds@.len() == es@.len() && forall|j: int|
                0 <= j < es@.len() ==> !has_decimal((#[trigger] es@[j]).1) && ds@[j].0 == es@[j].0
                    && bson_of(es@[j].1, ds@[j].1),
            Err(e) => (exists|j: int| 0 <= j < es@.len() && has_decimal((#[trigger] es@[j]).1))
                && is_decimal_error(e),
        },
    decreases *es,
{
    let mut ds: Vec<(String, Bson)> = Vec::new();
    let mut i: usize = 0;
    while i < es.len()
        invariant
            i <= es@.len(),
            ds@.len() == i,
            forall|j: int|
                0 <= j < i ==> !has_decimal((#[trigger] es@[j]).1) && ds@[j].0 == es@[j].0
                    && bson_of(es@[j].1, ds@[j].1),
        decreases es@.len() - i,
    {
        let entry = &es[i];
        proof {
            assert(decreases_to!(*es => es[i as int]));
        }
        match value_to_bson(&entry.1) {
            Ok(b) => ds.push((entry.0.clone(), b)),
            Err(e) => {
                assert(has_decimal(es@[i as int].1));
                return Err(e);
            },
        }
        i = i + 1;
    }
    Ok(ds)
}

/// Encodes a value at its declared type.
pub fn encode(t: &FieldType, v: Value) -> (r: Result<Bson, DbError>)
    ensures
        match r {
            Ok(b) => encoded(*t, v, b),
            Err(e) => encode_fails(*t, v) && is_decimal_error(e),
        },
{
    match t {
        FieldType::Int => match v {
            Value::I32(i) => Ok(Bson::Int32(i)),
            _ => Ok(Bson::Null),
        },
        FieldType::Int64 => match v {
            Value::I64(i) => Ok(Bson::Int64(i)),
            _ => Ok(Bson::Null),
        },
        FieldType::Decimal => Err(decimal_error()),
        _ => value_to_bson(&v),
    }
}


/// `r` is the decoding error for `model` at `path`, naming what was expected.
pub open spec fn is_decoding_error(
    r: Result<Value, DbError>,
    model: Seq<char>,
    path: Seq<PathItem>,
    expected: Seq<char>,
) -> bool {
    r matches Err(DbError::RecordDecodingError { model: m, path: p, expected: x }) && m@ == model
        && p.items@ == path && x@ == expected
}

/// `s` is one of the member names.
pub open spec fn is_member(members: Seq<String>, s: Seq<char>) -> bool {
    exists|k: int| 0 <= k < members.len() && (#[trigger] members[k])@ == s
}

/// The names joined with dots.
pub open spec fn dotted(ss: Seq<String>) -> Seq<char>
    decreases ss.len(),
{
    if ss.len() == 0 {
        Seq::empty()
    } else if ss.len() == 1 {
        ss[0]@
    } else {
        dotted(ss.drop_last()) + "."@ + ss.last()@
    }
}

/// A BSON date-time as the runtime reads it: instants outside the runtime's
/// range saturate at its ends.
pub open spec fn clamp_millis(ms: int) -> int {
    if ms < MIN_MILLIS {
        MIN_MILLIS as int
    } else if ms > MAX_MILLIS {
        MAX_MILLIS as int
    } else {
        ms
    }
}

/// The UTC calendar day of a BSON date-time, as a day number.
pub open spec fn day_of_millis(ms: int) -> int {
    clamp_millis(ms) / (DAY_MILLIS as int)
}

/// Decoding `b` at type `t` succeeds: the tags agree all the way down, an
/// enum value is a member, and a null stands only where optional.
pub open spec fn decodes(t: FieldType, optional: bool, b: Bson) -> bool
    decreases b,
{
    if optional && b is Null {
        true
    } else {
        match t {
            FieldType::ObjectId => b is ObjectId,
            FieldType::Bool => b is Boolean,
            FieldType::Int => b is Int32,
            FieldType::Int64 => b is Int64,
            FieldType::Float32 => b is Double,
            FieldType::Float => b is Double,
            FieldType::Decimal => false,
            FieldType::String => b is String,
            FieldType::Date => b is DateTime,
            FieldType::DateTime => b is DateTime,
            FieldType::EnumVariant { members, .. } => b matches Bson::String(s) && is_member(
                members@,
                s@,
            ),
            FieldType::Array { inner, optional: o } => b matches Bson::Array(bs) && forall|i: int|
                0 <= i < bs@.len() ==> decodes(*inner, o, #[trigger] bs@[i]),
            FieldType::Dictionary { inner, optional: o } => b matches Bson::Document(ds) && forall|
                i: int,
            | 0 <= i < ds@.len() ==> decodes(*inner, o, (#[trigger] ds@[i]).1),
        }
    }
}

/// `r` is the result of decoding `b` at type `t` for a field of `model`,
/// with `path` locating the value. A null is accepted where the value is
/// optional; any other tag mismatch is an error naming the expected kind,
/// never a coercion. Arrays and dictionaries decode element by element,
/// keeping order and keys, and fail with the error of the first element
/// that fails.
pub open spec fn decoded(
    model: Seq<char>,
    t: FieldType,
    optional: bool,
    b: Bson,
    path: Seq<PathItem>,
    r: Result<Value, DbError>,
) -> bool
    decreases b,
{
    if optional && b is Null {
        r == Ok::<Value, DbError>(Value::Null)
    } else {
        match t {
            FieldType::ObjectId => match b {
                Bson::ObjectId(o) => r == Ok::<Value, DbError>(Value::ObjectId(o)),
                _ => is_decoding_error(r, model, path, "object id"@),
            },
            FieldType::Bool => match b {
                Bson::Boolean(x) => r == Ok::<Value, DbError>(Value::Bool(x)),
                _ => is_decoding_error(r, model, path, "bool"@),
            },
            FieldType::Int => match b {
                Bson::Int32(n) => r == Ok::<Value, DbError>(Value::I32(n)),
                _ => is_decoding_error(r, model, path, "int 32"@),
            },
            FieldType::Int64 => match b {
                Bson::Int64(n) => r == Ok::<Value, DbError>(Value::I64(n)),
                _ => is_decoding_error(r, model, path, "int 64"@),
            },
            FieldType::Float32 => match b {
                Bson::Double(x) => r == Ok::<Value, DbError>(Value::F32(x)),
                _ => is_decoding_error(r, model, path, "double"@),
            },
            FieldType::Float => match b {
                Bson::Double(x) => r == Ok::<Value, DbError>(Value::F64(x)),
                _ => is_decoding_error(r, model, path, "double"@),
            },
            FieldType::Decimal => r matches Err(e) && is_decimal_error(e),
            FieldType::String => match b {
                Bson::String(s) => r == Ok::<Value, DbError>(Value::String(s)),
                _ => is_decoding_error(r, model, path, "string"@),
            },
            FieldType::Date => match b {
                Bson::DateTime(ms) => r matches Ok(Value::Date(d)) && d == day_of_millis(ms as int),
                _ => is_decoding_error(r, model, path, "datetime"@),
            },
            FieldType::DateTime => match b {
                Bson::DateTime(ms) => r matches Ok(Value::DateTime(c)) && c == clamp_millis(
                    ms as int,
                ),
                _ => is_decoding_error(r, model, path, "datetime"@),
            },
            FieldType::EnumVariant { path: enum_path, members } => match b {
                Bson::String(s) => if is_member(members@, s@) {
                    r == Ok::<Value, DbError>(Value::EnumVariant(s))
                } else {
                    is_decoding_error(r, model, path, dotted(enum_path@))
                },
                _ => is_decoding_error(r, model, path, "string"@),
            },
            FieldType::Array { inner, optional: o } => match b {
                Bson::Array(bs) => match r {
                    Ok(Value::Array(vs)) => vs@.len() == bs@.len() && forall|i: int|
                        0 <= i < bs@.len() ==> decoded(
                            model,
                            *inner,
                            o,
                            #[trigger] bs@[i],
                            path.push(PathItem::Index(i as usize)),
                            Ok(vs@[i]),
                        ),
                    Err(_) => exists|i: int|
                        0 <= i < bs@.len() && decoded(
                            model,
                            *inner,
                            o,
                            #[trigger] bs@[i],
                            path.push(PathItem::Index(i as usize)),
                            r,
                        ) && forall|j: int| 0 <= j < i ==> decodes(*inner, o, #[trigger] bs@[j]),
                    _ => false,
                },
                _ => is_decoding_error(r, model, path, "array"@),
            },
            FieldType::Dictionary { inner, optional: o } => match b {
                Bson::Document(ds) => match r {
                    Ok(Value::Dictionary(es)) => es@.len() == ds@.len() && forall|i: int|
                        0 <= i < ds@.len() ==> (#[trigger] ds@[i]).0 == es@[i].0 && decoded(
                            model,
                            *inner,
                            o,
                            ds@[i].1,
                            path.push(PathItem::Key(ds@[i].0)),
                            Ok(es@[i].1),
                        ),
                    Err(_) => exists|i: int|
                        0 <= i < ds@.len() && decoded(
                            model,
                            *inner,
                            o,
                            (#[trigger] ds@[i]).1,
                            path.push(PathItem::Key(ds@[i].0)),
                            r,
                        ) && forall|j: int| 0 <= j < i ==> decodes(*inner, o, (#[trigger] ds@[j]).1),
                    _ => false,
                },
                _ => is_decoding_error(r, model, path, "document"@),
            },
        }
    }
}


/// Decoding succeeds exactly when `decodes` says so.
pub proof fn lemma_decodes(
    model: Seq<char>,
    t: FieldType,
    optional: bool,
    b: Bson,
    path: Seq<PathItem>,
    r: Result<Value, DbError>,
)
    requires
        decoded(model, t, optional, b, path, r),
    ensures
        (r is Ok) == decodes(t, optional, b),
    decreases b,
{
    if !(optional && b is Null) {
        match t {
            FieldType::Array { inner, optional: o } => {
                if let Bson::Array(bs) = b {
                    match r {
                        Ok(v) => {
                            let vs = v->Array_0;
                            assert forall|i: int| 0 <= i < bs@.len() implies decodes(
                                *inner,
                                o,
                                #[trigger] bs@[i],
                            ) by {
                                lemma_decodes(
                                    model,
                                    *inner,
                                    o,
                                    bs@[i],
                                    path.push(PathItem::Index(i as usize)),
                                    Ok(vs@[i]),
                                );
                            }
                        },
                        Err(_) => {
                            let i = choose|i: int|
                                0 <= i < bs@.len() && decoded(
                                    model,
                                    *inner,
                                    o,
                                    #[trigger] bs@[i],
                                    path.push(PathItem::Index(i as usize)),
                                    r,
                                ) && forall|j: int| 0 <= j < i ==> decodes(*inner, o, #[trigger] bs@[j]);
                            lemma_decodes(model, *inner, o, bs@[i], path.push(PathItem::Index(i as usize)), r);
                        },
                    }
                }
            },
            FieldType::Dictionary { inner, optional: o } => {
                if let Bson::Document(ds) = b {
                    match r {
                        Ok(v) => {
                            let es = v->Dictionary_0;
                            assert forall|i: int| 0 <= i < ds@.len() implies decodes(
                                *inner,
                                o,
                                (#[trigger] ds@[i]).1,
                            ) by {
                                lemma_decodes(
                                    model,
                                    *inner,
                                    o,
                                    ds@[i].1,
                                    path.push(PathItem::Key(ds@[i].0)),
                                    Ok(es@[i].1),
                                );
                            }
                        },
                        Err(_) => {
                            let i = choose|i: int|
                                0 <= i < ds@.len() && decoded(
                                    model,
                                    *inner,
                                    o,
                                    (#[trigger] ds@[i]).1,
                                    path.push(PathItem::Key(ds@[i].0)),
                                    r,
                                ) && forall|j: int| 0 <= j < i ==> decodes(*inner, o, (#[trigger] ds@[j]).1);
                            lemma_decodes(model, *inner, o, ds@[i].1, path.push(PathItem::Key(ds@[i].0)), r);
                        },
                    }
                }
            },
            _ => {},
        }
    }
}

/// A BSON date-time in the runtime's range.
pub fn clamp_to_runtime_millis(ms: i64) -> (r: i64)
    ensures
        r == clamp_millis(ms as int),
{
    if ms < MIN_MILLIS {
        MIN_MILLIS
    } else if ms > MAX_MILLIS {
        MAX_MILLIS
    } else {
        ms
    }
}

/// The UTC day number of a BSON date-time.
pub fn day_number(ms: i64) -> (r: i32)
    ensures
        r == day_of_millis(ms as int),
        MIN_DAY <= r <= MAX_DAY,
{
    let c = clamp_to_runtime_millis(ms);
    let ghost d: int = DAY_MILLIS as int;
    proof {
        lemma_fundamental_div_mod_converse(MAX_MILLIS as int, d, MAX_DAY as int, MAX_MILLIS - MAX_DAY * d);
        lemma_fundamental_div_mod_converse(MIN_MILLIS as int, d, MIN_DAY as int, 0);
        lemma_div_is_ordered(c as int, MAX_MILLIS as int, d);
        lemma_div_is_ordered(MIN_MILLIS as int, c as int, d);
    }
    if c >= 0 {
        let q: u64 = (c as u64) / (DAY_MILLIS as u64);
        q as i32
    } else {
        let n: u64 = (-c - 1) as u64;
        let q: u64 = n / (DAY_MILLIS as u64);
        proof {
            lemma_fundamental_div_mod(n as int, d);
            lemma_mod_pos_bound(n as int, d);
            lemma_fundamental_div_mod_converse(c as int, d, -(q as int) - 1, d - 1 - (n as int) % d);
        }
        (-(q as i64) - 1) as i32
    }
}

/// A decoding error for a field of `model` at `path`.
fn decoding_error(model: &String, path: &KeyPath, expected: &str) -> (r: Result<Value, DbError>)
    ensures
        is_decoding_error(r, model@, path.items@, expected@),
{
    Err(
        DbError::RecordDecodingError {
            model: model.clone(),
            path: path.copy(),
            expected: String::from_str(expected),
        },
    )
}

/// Whether `s` is one of the member names.
pub fn contains_member(members: &Vec<String>, s: &String) -> (r: bool)
    ensures
        r == is_member(members@, s@),
{
    let mut k: usize = 0;
    while k < members.len()
        invariant
            k <= members@.len(),
            forall|j: int| 0 <= j < k ==> (#[trigger] members@[j])@ != s@,
        decreases members@.len() - k,
    {
        if members[k] == *s {
            return true;
        }
        k = k + 1;
    }
    false
}

/// The names joined with dots.
pub fn join_dotted(ss: &Vec<String>) -> (r: String)
    ensures
        r@ == dotted(ss@),
{
    let mut r = String::new();
    let mut i: usize = 0;
    while i < ss.len()
        invariant
            i <= ss@.len(),
            r@ == dotted(ss@.take(i as int)),
        decreases ss@.len() - i,
    {
        proof {
            let next = ss@.take(i + 1);
            assert(next.drop_last() == ss@.take(i as int));
            assert(next.last() == ss@[i as int]);
            if i == 0 {
                assert(dotted(next) == ss@[0]@);
            }
        }
        if i > 0 {
            r.append(".");
        }
        r.append(ss[i].as_str());
        i = i + 1;
    }
    assert(ss@.take(ss@.len() as int) == ss@);
    r
}

/// Decodes a BSON value at type `t` for a field of `model`; `path` locates
/// the value in errors.
pub fn decode(model: &String, t: &FieldType, optional: bool, b: &Bson, path: &KeyPath) -> (r: Result<
    Value,
    DbError,
>)
    ensures
        decoded(model@, *t, optional, *b, path.items@, r),
    decreases *b,
{
    if optional {
        if let Bson::Null = b {
            return Ok(Value::Null);
        }
    }
    match t {
        FieldType::ObjectId => match b {
            Bson::ObjectId(o) => Ok(Value::ObjectId(*o)),
            _ => decoding_error(model, path, "object id"),
        },
        FieldType::Bool => match b {
            Bson::Boolean(x) => Ok(Value::Bool(*x)),
            _ => decoding_error(model, path, "bool"),
        },
        FieldType::Int => match b {
            Bson::Int32(n) => Ok(Value::I32(*n)),
            _ => decoding_error(model, path, "int 32"),
        },
        FieldType::Int64 => match b {
            Bson::Int64(n) => Ok(Value::I64(*n)),
            _ => decoding_error(model, path, "int 64"),
        },
        FieldType::Float32 => match b {
            Bson::Double(x) => Ok(Value::F32(*x)),
            _ => decoding_error(model, path, "double"),
        },
        FieldType::Float => match b {
            Bson::Double(x) => Ok(Value::F64(*x)),
            _ => decoding_error(model, path, "double"),
        },
        FieldType::Decimal => Err(decimal_error()),
        FieldType::String => match b {
            Bson::String(s) => Ok(Value::String(s.clone())),
            _ => decoding_error(model, path, "string"),
        },
        FieldType::Date => match b {
            Bson::DateTime(ms) => Ok(Value::Date(day_number(*ms))),
            _ => decoding_error(model, path, "datetime"),
        },
        FieldType::DateTime => match b {
            Bson::DateTime(ms) => Ok(Value::DateTime(clamp_to_runtime_millis(*ms))),
            _ => decoding_error(model, path, "datetime"),
        },
        FieldType::EnumVariant { path: enum_path, members } => match b {
            Bson::String(s) => {
                if contains_member(members, s) {
                    Ok(Value::EnumVariant(s.clone()))
                } else {
                    Err(
                        DbError::RecordDecodingError {
                            model: model.clone(),
                            path: path.copy(),
                            expected: join_dotted(enum_path),
                        },
                    )
                }
            },
            _ => decoding_error(model, path, "string"),
        },
        FieldType::Array { inner, optional: o } => match b {
            Bson::Array(bs) => match decode_elements(model, &**inner, *o, bs, path) {
                Ok(vs) => Ok(Value::Array(vs)),
                Err(e) => Err(e),
            },
            _ => decoding_error(model, path, "array"),
        },
        FieldType::Dictionary { inner, optional: o } => match b {
            Bson::Document(ds) => match decode_entries(model, &**inner, *o, ds, path) {
                Ok(es) => Ok(Value::Dictionary(es)),
                Err(e) => Err(e),
            },
            _ => decoding_error(model, path, "document"),
        },
    }
}

/// Decodes each element of a BSON array at type `t`; element `i` is located
/// at `path` followed by `i`. Fails with the error of the first element
/// that fails.
pub fn decode_elements(
    model: &String,
    t: &FieldType,
    optional: bool,
    bs: &Vec<Bson>,
    path: &KeyPath,
) -> (r: Result<Vec<Value>, DbError>)
    ensures
        match r {
            Ok(vs) => vs@.len() == bs@.len() && forall|i: int|
                0 <= i < bs@.len() ==> decoded(
                    model@,
                    *t,
                    optional,
                    #[trigger] bs@[i],
                    path.items@.push(PathItem::Index(i as usize)),
                    Ok(vs@[i]),
                ),
            Err(e) => exists|i: int|
                0 <= i < bs@.len() && decoded(
                    model@,
                    *t,
                    optional,
                    #[trigger] bs@[i],
                    path.items@.push(PathItem::Index(i as usize)),
                    Err(e),
                ) && forall|j: int| 0 <= j < i ==> decodes(*t, optional, #[trigger] bs@[j]),
        },
    decreases *bs,
{
    let mut vs: Vec<Value> = Vec::new();
    let mut i: usize = 0;
    while i < bs.len()
        invariant
            i <= bs@.len(),
            vs@.len() == i,
            forall|j: int|
                0 <= j < i ==> decoded(
                    model@,
                    *t,
                    optional,
                    #[trigger] bs@[j],
                    path.items@.push(PathItem::Index(j as usize)),
                    Ok(vs@[j]),
                ),
        decreases bs@.len() - i,
    {
        proof {
            assert(decreases_to!(*bs => bs[i as int]));
        }
        let p = path.with_index(i);
        match decode(model, t, optional, &bs[i], &p) {
            Ok(v) => vs.push(v),
            Err(e) => {
                assert(decoded(
                    model@,
                    *t,
                    optional,
                    bs@[i as int],
                    path.items@.push(PathItem::Index((i as int) as usize)),
                    Err(e),
                ));
                assert forall|j: int| 0 <= j < i implies decodes(*t, optional, #[trigger] bs@[j]) by {
                    lemma_decodes(
                        model@,
                        *t,
                        optional,
                        bs@[j],
                        path.items@.push(PathItem::Index(j as usize)),
                        Ok(vs@[j]),
                    );
                }
                return Err(e);
            },
        }
        i = i + 1;
    }
    Ok(vs)
}

/// Decodes each entry of a BSON document at type `t`, keeping keys and
/// order; the entry under key `k` is located at `path` followed by `k`.
/// Fails with the error of the first entry that fails.
pub fn decode_entries(
    model: &String,
    t: &FieldType,
    optional: bool,
    ds: &Vec<(String, Bson)>,
    path: &KeyPath,
) -> (r: Result<Vec<(String, Value)>, DbError>)
    ensures
        match r {
            Ok(es) => es@.len() == ds@.len() && forall|i: int|
                0 <= i < ds@.len() ==> (#[trigger] ds@[i]).0 == es@[i].0 && decoded(
                    model@,
                    *t,
                    optional,
                    ds@[i].1,
                    path.items@.push(PathItem::Key(ds@[i].0)),
                    Ok(es@[i].1),
                ),
            Err(e) => exists|i: int|
                0 <= i < ds@.len() && decoded(
                    model@,
                    *t,
                    optional,
                    (#[trigger] ds@[i]).1,
                    path.items@.push(PathItem::Key(ds@[i].0)),
                    Err(e),
                ) && forall|j: int| 0 <= j < i ==> decodes(*t, optional, (#[trigger] ds@[j]).1),
        },
    decreases *ds,
{
    let mut es: Vec<(String, Value)> = Vec::new();
    let mut i: usize = 0;
    while i < ds.len()
        invariant
            i <= ds@.len(),
            es@.len() == i,
            forall|j: int|
                0 <= j < i ==> (#[trigger] ds@[j]).0 == es@[j].0 && decoded(
                    model@,
                    *t,
                    optional,
                    ds@[j].1,
                    path.items@.push(PathItem::Key(ds@[j].0)),
                    Ok(es@[j].1),
                ),
        decreases ds@.len() - i,
    {
        let entry = &ds[i];
        proof {
            assert(decreases_to!(*ds => ds[i as int]));
        }
        let p = path.with_key(&entry.0);
        match decode(model, t, optional, &entry.1, &p) {
            Ok(v) => es.push((entry.0.clone(), v)),
            Err(e) => {
                assert(decoded(
                    model@,
                    *t,
                    optional,
                    ds@[i as int].1,
                    path.items@.push(PathItem::Key(ds@[i as int].0)),
                    Err(e),
                ));
                assert forall|j: int| 0 <= j < i implies decodes(*t, optional, (#[trigger] ds@[j]).1) by {
                    lemma_decodes(
                        model@,
                        *t,
                        optional,
                        ds@[j].1,
                        path.items@.push(PathItem::Key(ds@[j].0)),
                        Ok(es@[j].1),
                    );
                }
                return Err(e);
            },
        }
        i = i + 1;
    }
    Ok(es)
}


/// A scalar `v` has declared type `t`.
pub open spec fn scalar_typed(v: Value, t: FieldType) -> bool {
    match t {
        FieldType::Int => v is I32,
        FieldType::Int64 => v is I64,
        FieldType::Float32 => v is F32,
        FieldType::Float => v is F64,
        FieldType::Bool => v is Bool,
        FieldType::String => v is String,
        FieldType::ObjectId => v is ObjectId,
        FieldType::Date => v matches Value::Date(d) && MIN_DAY <= d <= MAX_DAY,
        FieldType::DateTime => v matches Value::DateTime(ms) && MIN_MILLIS <= ms <= MAX_MILLIS,
        FieldType::EnumVariant { members, .. } => v matches Value::EnumVariant(s) && is_member(
            members@,
            s@,
        ),
        _ => false,
    }
}

/// `v` is a value of declared type `t`: null only where optional, an enum
/// value as the variant of one of its members, dates and date-times within the
/// runtime's range, and arrays and dictionaries whose elements have the
/// element type.
pub open spec fn typed(v: Value, t: FieldType, optional: bool) -> bool
    decreases v,
{
    match v {
        Value::Null => optional,
        Value::Array(vs) => t matches FieldType::Array { inner, optional: o } && forall|i: int|
            0 <= i < vs@.len() ==> typed(#[trigger] vs@[i], *inner, o),
        Value::Dictionary(es) => t matches FieldType::Dictionary { inner, optional: o }
            && forall|i: int| 0 <= i < es@.len() ==> typed((#[trigger] es@[i]).1, *inner, o),
        _ => scalar_typed(v, t),
    }
}

proof fn lemma_canonical_round_trip(
    model: Seq<char>,
    t: FieldType,
    optional: bool,
    v: Value,
    b: Bson,
    path: Seq<PathItem>,
)
    requires
        typed(v, t, optional),
        bson_of(v, b),
    ensures
        decoded(model, t, optional, b, path, Ok(v)),
        !has_decimal(v),
    decreases v,
{
    match v {
        Value::Array(vs) => {
            let bs = b->Array_0;
            let inner = *t->Array_inner;
            let o = t->Array_optional;
            assert forall|i: int|
                #![trigger vs@[i]]
                #![trigger bs@[i]]
                0 <= i < vs@.len() implies decoded(
                model,
                inner,
                o,
                bs@[i],
                path.push(PathItem::Index(i as usize)),
                Ok(vs@[i]),
            ) && !has_decimal(vs@[i]) by {
                lemma_canonical_round_trip(
                    model,
                    inner,
                    o,
                    vs@[i],
                    bs@[i],
                    path.push(PathItem::Index(i as usize)),
                );
            }
        },
        Value::Dictionary(es) => {
            let ds = b->Document_0;
            let inner = *t->Dictionary_inner;
            let o = t->Dictionary_optional;
            assert forall|i: int|
                #![trigger es@[i]]
                #![trigger ds@[i]]
                0 <= i < ds@.len() implies decoded(
                model,
                inner,
                o,
                ds@[i].1,
                path.push(PathItem::Key(ds@[i].0)),
                Ok(es@[i].1),
            ) && !has_decimal(es@[i].1) by {
                lemma_canonical_round_trip(
                    model,
                    inner,
                    o,
                    es@[i].1,
                    ds@[i].1,
                    path.push(PathItem::Key(ds@[i].0)),
                );
            }
        },
        Value::Date(d) => {
            let ms = b->DateTime_0;
            let day: int = DAY_MILLIS as int;
            assert(MIN_DAY * day <= d * day <= MAX_DAY * day) by (nonlinear_arith)
                requires
                    MIN_DAY <= d <= MAX_DAY,
                    day > 0,
            ;
            lemma_fundamental_div_mod_converse(ms as int, day, d as int, 0);
        },
        _ => {},
    }
}

/// Decoding is a function of its inputs: two successful results of the
/// same decoding are copies of each other.
pub proof fn lemma_decoded_unique(
    model: Seq<char>,
    t: FieldType,
    optional: bool,
    b: Bson,
    path: Seq<PathItem>,
    x: Value,
    y: Value,
)
    requires
        decoded(model, t, optional, b, path, Ok(x)),
        decoded(model, t, optional, b, path, Ok(y)),
    ensures
        same_value(x, y),
    decreases b,
{
    if !(optional && b is Null) {
        match t {
            FieldType::Array { inner, optional: o } => {
                if let Bson::Array(bs) = b {
                    let xs = x->Array_0;
                    let ys = y->Array_0;
                    assert forall|i: int| 0 <= i < xs@.len() implies same_value(#[trigger] xs@[i], ys@[i]) by {
                        lemma_decoded_unique(
                            model,
                            *inner,
                            o,
                            bs@[i],
                            path.push(PathItem::Index(i as usize)),
                            xs@[i],
                            ys@[i],
                        );
                    }
                }
            },
            FieldType::Dictionary { inner, optional: o } => {
                if let Bson::Document(ds) = b {
                    let xs = x->Dictionary_0;
                    let ys = y->Dictionary_0;
                    assert forall|i: int| 0 <= i < xs@.len() implies (#[trigger] xs@[i]).0 == ys@[i].0
                        && same_value(xs@[i].1, ys@[i].1) by {
                        assert(ds@[i].0 == xs@[i].0);
                        lemma_decoded_unique(
                            model,
                            *inner,
                            o,
                            ds@[i].1,
                            path.push(PathItem::Key(ds@[i].0)),
                            xs@[i].1,
                            ys@[i].1,
                        );
                    }
                }
            },
            _ => {},
        }
    }
}

/// Decoding the encoding of a value of declared type `t`, at `t`, gives the
/// value back: whatever decoding returns is a success holding a copy of
/// the value. Encoding such a value never fails.
pub proof fn lemma_codec_round_trip(
    model: Seq<char>,
    t: FieldType,
    optional: bool,
    v: Value,
    b: Bson,
    path: Seq<PathItem>,
    r: Result<Value, DbError>,
)
    requires
        typed(v, t, optional),
        encoded(t, v, b),
        decoded(model, t, optional, b, path, r),
    ensures
        r matches Ok(w) && same_value(v, w),
        !encode_fails(t, v),
{
    assert(bson_of(v, b));
    lemma_canonical_round_trip(model, t, optional, v, b, path);
    lemma_decodes(model, t, optional, b, path, Ok(v));
    lemma_decodes(model, t, optional, b, path, r);
    lemma_decoded_unique(model, t, optional, b, path, v, r->Ok_0);
}

} // verus!
