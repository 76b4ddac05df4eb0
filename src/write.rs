//! The write path: documents for inserts and updates, and the values that
//! flow back from the server after a write.
use vstd::prelude::*;
use crate::codec::{
    bson_of, decode, decoded, decodes, encode, encode_fails, encoded, has_decimal,
    is_decimal_error, lemma_decodes, value_to_bson,
};
use crate::error::{KeyPath, PathItem};
use crate::error::DbError;
use crate::model::{
    Model, field_at, lemma_field_lookup, lemma_property_lookup, names_field, names_property,
    property_at,
};
use crate::value::{
    Bson, Value, find_entry, has_entry, is_entry_at, lemma_entry_lookup, lemma_entry_unique,
};

verus! {

broadcast use vstd::std_specs::vec::group_vec_axioms;

/// An atomic update of one field, carried out by the server. The operand
/// of `Divide` is already its reciprocal, as the bits of a double.
#[derive(Debug, PartialEq)]
pub enum Updator {
    Increment(Value),
    Decrement(Value),
    Multiply(Value),
    Divide(u64),
    Push(Value),
}

/// One key of an object to save: its current value, and the atomic update
/// the object carries for it, if any.
#[derive(Debug, PartialEq)]
pub struct SaveEntry {
    pub key: String,
    pub value: Value,
    pub updator: Option<Updator>,
}

/// `out` is what the entry contributes to an insert: the encoded value
/// under the field's column, or under the property's own name; nothing for
/// a key that names neither.
pub open spec fn insert_encoding(m: Model, e: SaveEntry, out: Option<(String, Bson)>) -> bool {
    if names_field(m, e.key@) {
        forall|j: usize|
            #[trigger] field_at(m, e.key@, j) ==> (out matches Some(o) && o.0
                == m.fields@[j as int].column_name && encoded(
                m.fields@[j as int].field_type,
                e.value,
                o.1,
            ))
    } else if names_property(m, e.key@) {
        forall|j: usize|
            #[trigger] property_at(m, e.key@, j) ==> (out matches Some(o) && o.0 == e.key
                && encoded(m.properties@[j as int].field_type, e.value, o.1))
    } else {
        out is None
    }
}

/// Encoding the entry for an insert fails.
pub open spec fn insert_fails(m: Model, e: SaveEntry) -> bool {
    ||| exists|j: usize| #[trigger] field_at(m, e.key@, j) && encode_fails(m.fields@[j as int].field_type, e.value)
    ||| !names_field(m, e.key@) && exists|j: usize|
        #[trigger] property_at(m, e.key@, j) && encode_fails(m.properties@[j as int].field_type, e.value)
}

/// Encodes each entry as an insert writes it.
pub fn insert_encodings(m: &Model, entries: Vec<SaveEntry>) -> (r: Result<
    Vec<Option<(String, Bson)>>,
    DbError,
>)
    ensures
        match r {
            Ok(encs) => encs@.len() == entries@.len() && forall|i: int|
                0 <= i < entries@.len() ==> insert_encoding(*m, #[trigger] entries@[i], encs@[i]),
            Err(e) => is_decimal_error(e) && exists|i: int|
                0 <= i < entries@.len() && insert_fails(*m, #[trigger] entries@[i]),
        },
{
    let ghost all = entries@;
    let total = entries.len();
    let mut rest = entries;
    let mut encs: Vec<Option<(String, Bson)>> = Vec::new();
    let mut i: usize = 0;
    while rest.len() > 0
        invariant
            all == entries@,
            all.len() == total,
            i <= all.len(),
            rest@ == all.subrange(i as int, all.len() as int),
            encs@.len() == i,
            forall|k: int| 0 <= k < i ==> insert_encoding(*m, #[trigger] all[k], encs@[k]),
        decreases rest@.len(),
    {
        let entry = rest.remove(0);
        assert(entry == all[i as int]);
        let f = m.field(&entry.key);
        proof {
            lemma_field_lookup(*m, entry.key@, f);
        }
        match f {
            Some(fi) => {
                let field = &m.fields[fi];
                match encode(&field.field_type, entry.value) {
                    Ok(b) => encs.push(Some((field.column_name.clone(), b))),
                    Err(e) => {
                        assert(field_at(*m, entry.key@, fi));
                        assert(insert_fails(*m, entries@[i as int]));
                        return Err(e);
                    },
                }
            },
            None => {
                let p = m.property(&entry.key);
                proof {
                    lemma_property_lookup(*m, entry.key@, p);
                }
                match p {
                    Some(pi) => {
                        match encode(&m.properties[pi].field_type, entry.value) {
                            Ok(b) => encs.push(Some((entry.key, b))),
                            Err(e) => {
                                assert(property_at(*m, entry.key@, pi));
                                assert(insert_fails(*m, entries@[i as int]));
                                return Err(e);
                            },
                        }
                    },
                    None => encs.push(None),
                }
            },
        }
        i = i + 1;
    }
    Ok(encs)
}

/// The insert document of the encodings: every present entry whose value
/// is not null, in order.
pub open spec fn insert_document(encs: Seq<Option<(String, Bson)>>) -> Seq<(String, Bson)>
    decreases encs.len(),
{
    if encs.len() == 0 {
        Seq::empty()
    } else {
        let rest = insert_document(encs.drop_last());
        match encs.last() {
            Some(o) => if o.1 is Null {
                rest
            } else {
                rest.push(o)
            },
            None => rest,
        }
    }
}

/// Builds the insert document: nulls are left out, as absent fields.
pub fn create_document(encs: Vec<Option<(String, Bson)>>) -> (r: Vec<(String, Bson)>)
    ensures
        r@ == insert_document(encs@),
{
    let ghost all = encs@;
    let total = encs.len();
    let mut rest = encs;
    let mut doc: Vec<(String, Bson)> = Vec::new();
    let mut i: usize = 0;
    while rest.len() > 0
        invariant
            all.len() == total,
            i <= all.len(),
            rest@ == all.subrange(i as int, all.len() as int),
            doc@ == insert_document(all.take(i as int)),
        decreases rest@.len(),
    {
        let item = rest.remove(0);
        proof {
            assert(item == all[i as int]);
            assert(all.take(i + 1).drop_last() == all.take(i as int));
            assert(all.take(i + 1).last() == item);
        }
        match item {
            Some(o) => {
                if !o.1.is_null() {
                    doc.push(o);
                }
            },
            None => {},
        }
        i = i + 1;
    }
    assert(all.take(all.len() as int) == all);
    doc
}

/// An insert document holds an encoded entry exactly when that entry is
/// present among the encodings and its value is not null.
pub proof fn lemma_null_elision(encs: Seq<Option<(String, Bson)>>)
    ensures
        forall|o: (String, Bson)|
            #[trigger] insert_document(encs).contains(o) <==> (!(o.1 is Null) && encs.contains(
                Some(o),
            )),
    decreases encs.len(),
{
    if encs.len() > 0 {
        let pre = encs.drop_last();
        lemma_null_elision(pre);
        let rest = insert_document(pre);
        assert forall|o: (String, Bson)|
            #[trigger] insert_document(encs).contains(o) <==> (!(o.1 is Null) && encs.contains(
                Some(o),
            )) by {
            assert(encs == pre.push(encs.last()));
            if encs.contains(Some(o)) && !pre.contains(Some(o)) {
                let k = choose|k: int| 0 <= k < encs.len() && encs[k] == Some(o);
                assert(k == encs.len() - 1);
            }
            if pre.contains(Some(o)) {
                let k = choose|k: int| 0 <= k < pre.len() && pre[k] == Some(o);
                assert(encs[k] == Some(o));
            }
            match encs.last() {
                Some(x) => {
                    if !(x.1 is Null) {
                        assert(insert_document(encs) == rest.push(x));
                        if rest.push(x).contains(o) && !rest.contains(o) {
                            let k = choose|k: int| 0 <= k < rest.len() + 1 && rest.push(x)[k] == o;
                            assert(k == rest.len());
                        }
                        if rest.contains(o) {
                            let k = choose|k: int| 0 <= k < rest.len() && rest[k] == o;
                            assert(rest.push(x)[k] == o);
                        }
                        if o == x {
                            assert(rest.push(x)[rest.len() as int] == o);
                        }
                    }
                },
                None => {},
            }
        }
    }
}

/// The bucket of an update document that receives an entry.
#[derive(Debug, PartialEq, Eq, Clone, Copy, Structural)]
pub enum Bucket {
    SetField,
    UnsetField,
    Inc,
    Mul,
    Push,
}

/// The name of a bucket in the update document.
pub open spec fn bucket_name(b: Bucket) -> Seq<char> {
    match b {
        Bucket::SetField => "$set"@,
        Bucket::UnsetField => "$unset"@,
        Bucket::Inc => "$inc"@,
        Bucket::Mul => "$mul"@,
        Bucket::Push => "$push"@,
    }
}

/// The bit pattern of a double with its sign cleared.
pub open spec fn abs_bits(x: u64) -> u64 {
    x & 0x7fff_ffff_ffff_ffffu64
}

/// The negation of a number: integers exactly (none for the least value),
/// floating-point numbers by their sign bit; none for other values.
pub open spec fn negated(v: Value) -> Option<Value> {
    match v {
        Value::I32(i) => if i == i32::MIN {
            None
        } else {
            Some(Value::I32((-i) as i32))
        },
        Value::I64(i) => if i == i64::MIN {
            None
        } else {
            Some(Value::I64((-i) as i64))
        },
        Value::F32(x) => Some(Value::F32(x ^ 0x8000_0000_0000_0000u64)),
        Value::F64(x) => Some(Value::F64(x ^ 0x8000_0000_0000_0000u64)),
        _ => None,
    }
}

/// `bk` and `b` are where and what an atomic updator writes: increments and
/// decrements go to `$inc` (a decrement negated), multiplications and
/// divisions to `$mul` (a division as the absolute value of the reciprocal),
/// pushes to `$push`.
pub open spec fn atomic_routed(u: Updator, bk: Bucket, b: Bson) -> bool {
    match u {
        Updator::Increment(x) => bk == Bucket::Inc && bson_of(x, b),
        Updator::Decrement(x) => bk == Bucket::Inc && (negated(x) matches Some(y) && bson_of(y, b)),
        Updator::Multiply(x) => bk == Bucket::Mul && bson_of(x, b),
        Updator::Divide(r) => bk == Bucket::Mul && b == Bson::Double(abs_bits(r)),
        Updator::Push(x) => bk == Bucket::Push && bson_of(x, b),
    }
}

/// A plain value write: to `$unset` when it encodes as null, else to `$set`.
pub open spec fn plain_routed(bk: Bucket, b: Bson) -> bool {
    bk == if b is Null {
        Bucket::UnsetField
    } else {
        Bucket::SetField
    }
}

/// `out` is where the entry goes in an update: a field with an atomic
/// updator under its column, any other field or property under its key by
/// its encoded value; nothing for a key that names neither.
pub open spec fn update_routing(m: Model, e: SaveEntry, out: Option<(Bucket, String, Bson)>) -> bool {
    if names_field(m, e.key@) {
        forall|j: usize|
            #[trigger] field_at(m, e.key@, j) ==> (match e.updator {
                Some(u) => out matches Some(o) && o.1 == m.fields@[j as int].column_name
                    && atomic_routed(u, o.0, o.2),
                None => out matches Some(o) && o.1 == e.key && encoded(
                    m.fields@[j as int].field_type,
                    e.value,
                    o.2,
                ) && plain_routed(o.0, o.2),
            })
    } else if names_property(m, e.key@) {
        forall|j: usize|
            #[trigger] property_at(m, e.key@, j) ==> (out matches Some(o) && o.1 == e.key
                && encoded(m.properties@[j as int].field_type, e.value, o.2) && plain_routed(
                o.0,
                o.2,
            ))
    } else {
        out is None
    }
}

/// The operand of an updator holds a `Decimal`.
pub open spec fn operand_has_decimal(u: Updator) -> bool {
    match u {
        Updator::Increment(x) => has_decimal(x),
        Updator::Multiply(x) => has_decimal(x),
        Updator::Push(x) => has_decimal(x),
        _ => false,
    }
}

/// Routing the entry for an update fails: the operand of a field's atomic
/// updator holds a `Decimal`, or the encoding of a plain field or property
/// value fails.
pub open spec fn update_fails(m: Model, e: SaveEntry) -> bool {
    if names_field(m, e.key@) {
        match e.updator {
            Some(u) => operand_has_decimal(u),
            None => exists|j: usize|
                #[trigger] field_at(m, e.key@, j) && encode_fails(m.fields@[j as int].field_type, e.value),
        }
    } else {
        exists|j: usize|
            #[trigger] property_at(m, e.key@, j) && encode_fails(m.properties@[j as int].field_type, e.value)
    }
}

/// Every decrement operand on a key that names a field can be negated.
pub open spec fn decrements_negatable(m: Model, entries: Seq<SaveEntry>) -> bool {
    forall|i: int|
        0 <= i < entries.len() && names_field(m, (#[trigger] entries[i]).key@) ==> (
        entries[i].updator matches Some(Updator::Decrement(x)) ==> negated(x) is Some)
}

/// Whether a decrement by `v` can be carried out: `v` is a number whose
/// negation exists.
pub fn is_negatable(v: &Value) -> (r: bool)
    ensures
        r == negated(*v) is Some,
{
    match v {
        Value::I32(i) => *i != i32::MIN,
        Value::I64(i) => *i != i64::MIN,
        Value::F32(_) => true,
        Value::F64(_) => true,
        _ => false,
    }
}

/// The negation of a number.
pub fn negate(v: Value) -> (r: Value)
    requires
        negated(v) is Some,
    ensures
        negated(v) == Some(r),
{
    match v {
        Value::I32(i) => Value::I32(-i),
        Value::I64(i) => Value::I64(-i),
        Value::F32(x) => Value::F32(x ^ 0x8000_0000_0000_0000u64),
        Value::F64(x) => Value::F64(x ^ 0x8000_0000_0000_0000u64),
        _ => Value::Null,
    }
}

/// Where and what an atomic updator writes.
fn route_atomic(u: Updator) -> (r: Result<(Bucket, Bson), DbError>)
    requires
        u matches Updator::Decrement(x) ==> negated(x) is Some,
    ensures
        match r {
            Ok(o) => atomic_routed(u, o.0, o.1),
            Err(e) => is_decimal_error(e) && operand_has_decimal(u),
        },
{
    match u {
        Updator::Increment(x) => match value_to_bson(&x) {
            Ok(b) => Ok((Bucket::Inc, b)),
            Err(e) => Err(e),
        },
        Updator::Decrement(x) => {
            let y = negate(x);
            match value_to_bson(&y) {
                Ok(b) => Ok((Bucket::Inc, b)),
                Err(e) => Err(e),
            }
        },
        Updator::Multiply(x) => match value_to_bson(&x) {
            Ok(b) => Ok((Bucket::Mul, b)),
            Err(e) => Err(e),
        },
        Updator::Divide(r) => Ok((Bucket::Mul, Bson::Double(r & 0x7fff_ffff_ffff_ffffu64))),
        Updator::Push(x) => match value_to_bson(&x) {
            Ok(b) => Ok((Bucket::Push, b)),
            Err(e) => Err(e),
        },
    }
}

/// A plain value write, by its encoding.
fn route_plain(b: Bson) -> (r: (Bucket, Bson))
    ensures
        r.1 == b,
        plain_routed(r.0, r.1),
{
    if b.is_null() {
        (Bucket::UnsetField, b)
    } else {
        (Bucket::SetField, b)
    }
}

/// Routes each entry of an update to its bucket.
pub fn route_updates(m: &Model, entries: Vec<SaveEntry>) -> (r: Result<
    Vec<Option<(Bucket, String, Bson)>>,
    DbError,
>)
    requires
        decrements_negatable(*m, entries@),
    ensures
        match r {
            Ok(rs) => rs@.len() == entries@.len() && forall|i: int|
                0 <= i < entries@.len() ==> update_routing(*m, #[trigger] entries@[i], rs@[i]),
            Err(e) => is_decimal_error(e) && exists|i: int|
                0 <= i < entries@.len() && update_fails(*m, #[trigger] entries@[i]),
        },
{
    let ghost all = entries@;
    let total = entries.len();
    let mut rest = entries;
    let mut rs: Vec<Option<(Bucket, String, Bson)>> = Vec::new();
    let mut i: usize = 0;
    while rest.len() > 0
        invariant
            all == entries@,
            all.len() == total,
            decrements_negatable(*m, all),
            i <= all.len(),
            rest@ == all.subrange(i as int, all.len() as int),
            rs@.len() == i,
            forall|k: int| 0 <= k < i ==> update_routing(*m, #[trigger] all[k], rs@[k]),
        decreases rest@.len(),
    {
        let entry = rest.remove(0);
        assert(entry == all[i as int]);
        let f = m.field(&entry.key);
        proof {
            lemma_field_lookup(*m, entry.key@, f);
        }
        match f {
            Some(fi) => {
                let column = m.fields[fi].column_name.clone();
                match entry.updator {
                    Some(u) => match route_atomic(u) {
                        Ok(o) => rs.push(Some((o.0, column, o.1))),
                        Err(e) => {
                            assert(field_at(*m, entry.key@, fi));
                            assert(update_fails(*m, entries@[i as int]));
                            return Err(e);
                        },
                    },
                    None => match encode(&m.fields[fi].field_type, entry.value) {
                        Ok(b) => {
                            let o = route_plain(b);
                            rs.push(Some((o.0, entry.key, o.1)));
                        },
                        Err(e) => {
                            assert(field_at(*m, entry.key@, fi));
                            assert(update_fails(*m, entries@[i as int]));
                            return Err(e);
                        },
                    },
                }
            },
            None => {
                let p = m.property(&entry.key);
                proof {
                    lemma_property_lookup(*m, entry.key@, p);
                }
                match p {
                    Some(pi) => match encode(&m.properties[pi].field_type, entry.value) {
                        Ok(b) => {
                            let o = route_plain(b);
                            rs.push(Some((o.0, entry.key, o.1)));
                        },
                        Err(e) => {
                            assert(property_at(*m, entry.key@, pi));
                            assert(update_fails(*m, entries@[i as int]));
                            return Err(e);
                        },
                    },
                    None => rs.push(None),
                }
            },
        }
        i = i + 1;
    }
    Ok(rs)
}

/// The entries that bucket `bk` receives, in order.
pub open spec fn bucket_entries(rs: Seq<Option<(Bucket, String, Bson)>>, bk: Bucket) -> Seq<
    (String, Bson),
>
    decreases rs.len(),
{
    if rs.len() == 0 {
        Seq::empty()
    } else {
        let rest = bucket_entries(rs.drop_last(), bk);
        match rs.last() {
            Some(o) => if o.0 == bk {
                rest.push((o.1, o.2))
            } else {
                rest
            },
            None => rest,
        }
    }
}

/// The bucket, if it receives any entry.
pub open spec fn bucket_if_used(rs: Seq<Option<(Bucket, String, Bson)>>, bk: Bucket) -> Seq<Bucket> {
    if bucket_entries(rs, bk).len() > 0 {
        seq![bk]
    } else {
        Seq::empty()
    }
}

/// The buckets that receive entries, in the order `$set`, `$unset`, `$inc`,
/// `$mul`, `$push`.
pub open spec fn used_buckets(rs: Seq<Option<(Bucket, String, Bson)>>) -> Seq<Bucket> {
    bucket_if_used(rs, Bucket::SetField) + bucket_if_used(rs, Bucket::UnsetField) + bucket_if_used(
        rs,
        Bucket::Inc,
    ) + bucket_if_used(rs, Bucket::Mul) + bucket_if_used(rs, Bucket::Push)
}

/// `doc` holds, for each of the buckets `bks` in order, the bucket's name
/// and a document of its entries.
pub open spec fn lists_buckets(
    rs: Seq<Option<(Bucket, String, Bson)>>,
    doc: Seq<(String, Bson)>,
    bks: Seq<Bucket>,
) -> bool {
    doc.len() == bks.len() && forall|i: int|
        0 <= i < bks.len() ==> (#[trigger] doc[i]).0@ == bucket_name(bks[i]) && (doc[i].1 matches Bson::Document(
            d,
        ) && d@ == bucket_entries(rs, bks[i]))
}

/// The update document of routed entries: one entry per bucket that
/// receives anything, and no other.
pub open spec fn is_update_document(rs: Seq<Option<(Bucket, String, Bson)>>, doc: Seq<(String, Bson)>) -> bool {
    lists_buckets(rs, doc, used_buckets(rs))
}

/// An update must read the document back: some entry goes to `$inc`,
/// `$mul` or `$push`, whose result only the server knows.
pub open spec fn returns_new(rs: Seq<Option<(Bucket, String, Bson)>>) -> bool {
    bucket_entries(rs, Bucket::Inc).len() > 0 || bucket_entries(rs, Bucket::Mul).len() > 0
        || bucket_entries(rs, Bucket::Push).len() > 0
}

fn push_bucket(
    doc: &mut Vec<(String, Bson)>,
    name: &str,
    entries: Vec<(String, Bson)>,
    Ghost(rs): Ghost<Seq<Option<(Bucket, String, Bson)>>>,
    Ghost(bks): Ghost<Seq<Bucket>>,
    Ghost(bk): Ghost<Bucket>,
)
    requires
        lists_buckets(rs, old(doc)@, bks),
        entries@ == bucket_entries(rs, bk),
        name@ == bucket_name(bk),
    ensures
        lists_buckets(rs, final(doc)@, bks + bucket_if_used(rs, bk)),
{
    if entries.len() > 0 {
        doc.push((String::from_str(name), Bson::Document(entries)));
        assert(bks + bucket_if_used(rs, bk) == bks.push(bk));
    } else {
        assert(bks + bucket_if_used(rs, bk) == bks);
    }
}

/// Assembles the update document from routed entries, and tells whether
/// the update must return the document after the write.
pub fn update_document(rs: Vec<Option<(Bucket, String, Bson)>>) -> (r: (Vec<(String, Bson)>, bool))
    ensures
        is_update_document(rs@, r.0@),
        r.1 == returns_new(rs@),
{
    let ghost all = rs@;
    let total = rs.len();
    let mut rest = rs;
    let mut set: Vec<(String, Bson)> = Vec::new();
    let mut unset: Vec<(String, Bson)> = Vec::new();
    let mut inc: Vec<(String, Bson)> = Vec::new();
    let mut mul: Vec<(String, Bson)> = Vec::new();
    let mut push: Vec<(String, Bson)> = Vec::new();
    let mut i: usize = 0;
    while rest.len() > 0
        invariant
            all.len() == total,
            i <= all.len(),
            rest@ == all.subrange(i as int, all.len() as int),
            set@ == bucket_entries(all.take(i as int), Bucket::SetField),
            unset@ == bucket_entries(all.take(i as int), Bucket::UnsetField),
            inc@ == bucket_entries(all.take(i as int), Bucket::Inc),
            mul@ == bucket_entries(all.take(i as int), Bucket::Mul),
            push@ == bucket_entries(all.take(i as int), Bucket::Push),
        decreases rest@.len(),
    {
        let item = rest.remove(0);
        proof {
            assert(item == all[i as int]);
            assert(all.take(i + 1).drop_last() == all.take(i as int));
            assert(all.take(i + 1).last() == item);
        }
        match item {
            Some(o) => match o.0 {
                Bucket::SetField => set.push((o.1, o.2)),
                Bucket::UnsetField => unset.push((o.1, o.2)),
                Bucket::Inc => inc.push((o.1, o.2)),
                Bucket::Mul => mul.push((o.1, o.2)),
                Bucket::Push => push.push((o.1, o.2)),
            },
            None => {},
        }
        i = i + 1;
    }
    proof {
        assert(all.take(all.len() as int) == all);
    }
    let return_new = inc.len() > 0 || mul.len() > 0 || push.len() > 0;
    let mut doc: Vec<(String, Bson)> = Vec::new();
    let ghost e: Seq<Bucket> = Seq::empty();
    push_bucket(&mut doc, "$set", set, Ghost(all), Ghost(e), Ghost(Bucket::SetField));
    let ghost p1 = e + bucket_if_used(all, Bucket::SetField);
    push_bucket(&mut doc, "$unset", unset, Ghost(all), Ghost(p1), Ghost(Bucket::UnsetField));
    let ghost p2 = p1 + bucket_if_used(all, Bucket::UnsetField);
    push_bucket(&mut doc, "$inc", inc, Ghost(all), Ghost(p2), Ghost(Bucket::Inc));
    let ghost p3 = p2 + bucket_if_used(all, Bucket::Inc);
    push_bucket(&mut doc, "$mul", mul, Ghost(all), Ghost(p3), Ghost(Bucket::Mul));
    let ghost p4 = p3 + bucket_if_used(all, Bucket::Mul);
    push_bucket(&mut doc, "$push", push, Ghost(all), Ghost(p4), Ghost(Bucket::Push));
    proof {
        assert(e + bucket_if_used(all, Bucket::SetField) == bucket_if_used(all, Bucket::SetField));
        assert(p4 + bucket_if_used(all, Bucket::Push) == used_buckets(all));
    }
    (doc, return_new)
}

/// The number of entries that were routed to some bucket.
pub open spec fn routed_count(rs: Seq<Option<(Bucket, String, Bson)>>) -> nat
    decreases rs.len(),
{
    if rs.len() == 0 {
        0
    } else {
        routed_count(rs.drop_last()) + if rs.last() is Some {
            1nat
        } else {
            0nat
        }
    }
}

/// Each routed entry lands in exactly one bucket: it is among the entries
/// of the bucket it names, and the five buckets together hold exactly as
/// many entries as were routed.
pub proof fn lemma_update_routing(rs: Seq<Option<(Bucket, String, Bson)>>)
    ensures
        bucket_entries(rs, Bucket::SetField).len() + bucket_entries(rs, Bucket::UnsetField).len()
            + bucket_entries(rs, Bucket::Inc).len() + bucket_entries(rs, Bucket::Mul).len()
            + bucket_entries(rs, Bucket::Push).len() == routed_count(rs),
        forall|i: int|
            0 <= i < rs.len() && #[trigger] rs[i] is Some ==> bucket_entries(
                rs,
                rs[i]->Some_0.0,
            ).contains((rs[i]->Some_0.1, rs[i]->Some_0.2)),
    decreases rs.len(),
{
    if rs.len() > 0 {
        let pre = rs.drop_last();
        lemma_update_routing(pre);
        assert forall|i: int|
            0 <= i < rs.len() && #[trigger] rs[i] is Some implies bucket_entries(
                rs,
                rs[i]->Some_0.0,
            ).contains((rs[i]->Some_0.1, rs[i]->Some_0.2)) by {
            let o = rs[i]->Some_0;
            let before = bucket_entries(pre, o.0);
            if i < rs.len() - 1 {
                assert(pre[i] == rs[i]);
                assert(before.contains((o.1, o.2)));
                let k = choose|k: int| 0 <= k < before.len() && before[k] == (o.1, o.2);
                match rs.last() {
                    Some(x) => if x.0 == o.0 {
                        assert(bucket_entries(rs, o.0)[k] == (o.1, o.2));
                    },
                    None => {},
                }
            } else {
                assert(bucket_entries(rs, o.0) == before.push((o.1, o.2)));
                assert(bucket_entries(rs, o.0)[before.len() as int] == (o.1, o.2));
            }
        }
    }
}

/// `v` is the value of the field `key` as read back from `doc`: the entry
/// under `key`, decoded at the field's type, located at the empty path.
pub open spec fn read_back(m: Model, doc: Seq<(String, Bson)>, key: Seq<char>, r: Result<Value, DbError>) -> bool {
    forall|j: usize, k: usize|
        #[trigger] field_at(m, key, j) && #[trigger] is_entry_at(doc, key, Some(k)) ==> decoded(
            m.name@,
            m.fields@[j as int].field_type,
            m.fields@[j as int].optional,
            doc[k as int].1,
            seq![PathItem::Key(m.fields@[j as int].name)],
            r,
        )
}

/// Reading the field `key` back from `doc` succeeds.
pub open spec fn reads_back(m: Model, doc: Seq<(String, Bson)>, key: Seq<char>) -> bool {
    forall|j: usize, k: usize|
        #[trigger] field_at(m, key, j) && #[trigger] is_entry_at(doc, key, Some(k)) ==> decodes(
            m.fields@[j as int].field_type,
            m.fields@[j as int].optional,
            doc[k as int].1,
        )
}

/// After an update that returned the new document, the new values of the
/// atomically updated keys: each key is decoded from the returned document
/// at its field's type; a failure is that of the first key that fails. Every
/// key must name a field and be in the document.
pub fn refresh_atomic_fields(m: &Model, doc: &Vec<(String, Bson)>, keys: &Vec<String>) -> (r: Result<
    Vec<(String, Value)>,
    DbError,
>)
    requires
        forall|i: int| 0 <= i < keys@.len() ==> names_field(*m, (#[trigger] keys@[i])@),
        forall|i: int| 0 <= i < keys@.len() ==> has_entry(doc@, (#[trigger] keys@[i])@),
    ensures
        match r {
            Ok(vs) => vs@.len() == keys@.len() && forall|i: int|
                0 <= i < keys@.len() ==> (#[trigger] vs@[i]).0 == keys@[i] && read_back(
                    *m,
                    doc@,
                    keys@[i]@,
                    Ok(vs@[i].1),
                ),
            Err(e) => exists|i: int|
                0 <= i < keys@.len() && read_back(*m, doc@, (#[trigger] keys@[i])@, Err(e)) && forall|
                    j: int,
                | 0 <= j < i ==> reads_back(*m, doc@, (#[trigger] keys@[j])@),
        },
{
    let mut vs: Vec<(String, Value)> = Vec::new();
    let mut i: usize = 0;
    while i < keys.len()
        invariant
            i <= keys@.len(),
            vs@.len() == i,
            forall|k: int| 0 <= k < keys@.len() ==> names_field(*m, (#[trigger] keys@[k])@),
            forall|k: int| 0 <= k < keys@.len() ==> has_entry(doc@, (#[trigger] keys@[k])@),
            forall|k: int|
                0 <= k < i ==> (#[trigger] vs@[k]).0 == keys@[k] && read_back(
                    *m,
                    doc@,
                    keys@[k]@,
                    Ok(vs@[k].1),
                ),
        decreases keys@.len() - i,
    {
        let key = &keys[i];
        assert(names_field(*m, keys@[i as int]@));
        assert(has_entry(doc@, keys@[i as int]@));
        let f = m.field(key);
        let d = find_entry(doc, key);
        proof {
            lemma_field_lookup(*m, key@, f);
            lemma_entry_lookup(doc@, key@, d);
        }
        let fi = f.unwrap();
        let di = d.unwrap();
        let field = &m.fields[fi];
        let path = KeyPath::new().with_key(&field.name);
        assert(path.items@ == seq![PathItem::Key(field.name)]);
        let res = decode(&m.name, &field.field_type, field.optional, &doc[di].1, &path);
        proof {
            assert forall|j: usize, k: usize|
                #[trigger] field_at(*m, key@, j) && #[trigger] is_entry_at(doc@, key@, Some(k)) implies decoded(
                m.name@,
                m.fields@[j as int].field_type,
                m.fields@[j as int].optional,
                doc@[k as int].1,
                seq![PathItem::Key(m.fields@[j as int].name)],
                res,
            ) by {
                assert(f == Some(j));
                lemma_entry_unique(doc@, key@, d, Some(k));
            }
        }
        match res {
            Ok(v) => vs.push((key.clone(), v)),
            Err(e) => {
                assert(read_back(*m, doc@, keys@[i as int]@, Err(e)));
                assert forall|q: int| 0 <= q < i implies reads_back(*m, doc@, (#[trigger] keys@[q])@) by {
                    assert forall|j: usize, k: usize|
                        #[trigger] field_at(*m, keys@[q]@, j) && #[trigger] is_entry_at(doc@, keys@[q]@, Some(k)) implies decodes(
                        m.fields@[j as int].field_type,
                        m.fields@[j as int].optional,
                        doc@[k as int].1,
                    ) by {
                        lemma_decodes(
                            m.name@,
                            m.fields@[j as int].field_type,
                            m.fields@[j as int].optional,
                            doc@[k as int].1,
                            seq![PathItem::Key(m.fields@[j as int].name)],
                            Ok(vs@[q].1),
                        );
                    }
                }
                return Err(e);
            },
        }
        i = i + 1;
    }
    Ok(vs)
}

/// `out` is what an insert's generated id sets for the auto key `key`: for
/// a field stored under `_id`, the id decoded at the field's type, under the
/// field's name; nothing for other auto keys.
pub open spec fn id_assignment(m: Model, key: Seq<char>, id: Bson, out: Option<(String, Value)>) -> bool {
    forall|j: usize|
        #[trigger] field_at(m, key, j) ==> if m.fields@[j as int].column_name@ == "_id"@ {
            out matches Some(o) && o.0 == m.fields@[j as int].name && decoded(
                m.name@,
                m.fields@[j as int].field_type,
                m.fields@[j as int].optional,
                id,
                seq![PathItem::Key(m.fields@[j as int].name)],
                Ok(o.1),
            )
        } else {
            out is None
        }
}

/// Decoding the generated id for the auto key `key` fails with `r`.
pub open spec fn id_assignment_fails(m: Model, key: Seq<char>, id: Bson, r: Result<Value, DbError>) -> bool {
    exists|j: usize|
        #[trigger] field_at(m, key, j) && m.fields@[j as int].column_name@ == "_id"@ && decoded(
            m.name@,
            m.fields@[j as int].field_type,
            m.fields@[j as int].optional,
            id,
            seq![PathItem::Key(m.fields@[j as int].name)],
            r,
        )
}

/// After a successful insert, the values that the generated id gives the
/// model's auto keys, one per auto key. Every auto key must name a field.
pub fn assign_inserted_id(m: &Model, id: &Bson) -> (r: Result<Vec<Option<(String, Value)>>, DbError>)
    requires
        forall|i: int| 0 <= i < m.auto_keys@.len() ==> names_field(*m, (#[trigger] m.auto_keys@[i])@),
    ensures
        match r {
            Ok(outs) => outs@.len() == m.auto_keys@.len() && forall|i: int|
                0 <= i < m.auto_keys@.len() ==> id_assignment(
                    *m,
                    (#[trigger] m.auto_keys@[i])@,
                    *id,
                    outs@[i],
                ),
            Err(e) => exists|i: int|
                0 <= i < m.auto_keys@.len() && id_assignment_fails(
                    *m,
                    (#[trigger] m.auto_keys@[i])@,
                    *id,
                    Err(e),
                ),
        },
{
    let id_column = String::from_str("_id");
    let mut outs: Vec<Option<(String, Value)>> = Vec::new();
    let mut i: usize = 0;
    while i < m.auto_keys.len()
        invariant
            id_column@ == "_id"@,
            i <= m.auto_keys@.len(),
            outs@.len() == i,
            forall|k: int| 0 <= k < m.auto_keys@.len() ==> names_field(*m, (#[trigger] m.auto_keys@[k])@),
            forall|k: int|
                0 <= k < i ==> id_assignment(*m, (#[trigger] m.auto_keys@[k])@, *id, outs@[k]),
        decreases m.auto_keys@.len() - i,
    {
        let key = &m.auto_keys[i];
        assert(names_field(*m, m.auto_keys@[i as int]@));
        let f = m.field(key);
        proof {
            lemma_field_lookup(*m, key@, f);
        }
        let fi = f.unwrap();
        let field = &m.fields[fi];
        assert(field_at(*m, key@, fi));
        if field.column_name == id_column {
            let path = KeyPath::new().with_key(&field.name);
            assert(path.items@ == seq![PathItem::Key(field.name)]);
            match decode(&m.name, &field.field_type, field.optional, id, &path) {
                Ok(v) => outs.push(Some((field.name.clone(), v))),
                Err(e) => {
                    assert(id_assignment_fails(*m, m.auto_keys@[i as int]@, *id, Err(e)));
                    return Err(e);
                },
            }
        } else {
            outs.push(None);
        }
        i = i + 1;
    }
    Ok(outs)
}

/// The selector of an object's stored record: its identifier, a
/// dictionary, as a BSON document.
pub fn identifier_document(id: &Value) -> (r: Result<Vec<(String, Bson)>, DbError>)
    requires
        id is Dictionary,
    ensures
        match r {
            Ok(d) => !has_decimal(*id) && bson_of(*id, Bson::Document(d)),
            Err(e) => has_decimal(*id) && is_decimal_error(e),
        },
{
    match value_to_bson(id) {
        Ok(Bson::Document(d)) => Ok(d),
        Ok(_) => Ok(Vec::new()),
        Err(e) => Err(e),
    }
}

} // verus!
