//! Reading results: aggregation rows, empty aggregates, counts, and the
//! order of fetched rows.
use vstd::prelude::*;
use crate::codec::{decode, decoded, decodes, lemma_decodes};
use crate::error::{DbError, KeyPath, PathItem};
use crate::model::{Model, field_at, lemma_field_lookup, names_field};
use crate::value::{Bson, Value, find_entry, has_entry, is_entry_at, lemma_entry_lookup};

verus! {

broadcast use vstd::std_specs::vec::group_vec_axioms;

/// The value of an aggregate result: a double, else a 64-bit integer, else
/// a 32-bit one, else null; any other BSON yields nothing.
pub open spec fn aggregate_value(b: Bson) -> Option<Value> {
    match b {
        Bson::Double(x) => Some(Value::F64(x)),
        Bson::Int64(i) => Some(Value::I64(i)),
        Bson::Int32(i) => Some(Value::I32(i)),
        Bson::Null => Some(Value::Null),
        _ => None,
    }
}

/// The entries of an aggregation bucket with a result value, in order.
pub open spec fn bucket_values(ds: Seq<(String, Bson)>) -> Seq<(String, Value)>
    decreases ds.len(),
{
    if ds.len() == 0 {
        Seq::empty()
    } else {
        let rest = bucket_values(ds.drop_last());
        match aggregate_value(ds.last().1) {
            Some(v) => rest.push((ds.last().0, v)),
            None => rest,
        }
    }
}

/// The present items, in order.
pub open spec fn present<T>(s: Seq<Option<T>>) -> Seq<T>
    decreases s.len(),
{
    if s.len() == 0 {
        Seq::empty()
    } else {
        let rest = present(s.drop_last());
        match s.last() {
            Some(x) => rest.push(x),
            None => rest,
        }
    }
}

/// The key starts with an underscore.
pub open spec fn is_bucket_key(k: Seq<char>) -> bool {
    k.len() > 0 && k[0] == '_'
}

/// `out` is what an entry of an aggregation row gives: nothing for `_id`; for
/// a bucket (a key starting with `_`), a dictionary of its result values;
/// for a group-by field, its value decoded at the field's type as optional.
pub open spec fn row_entry(m: Model, e: (String, Bson), out: Result<Option<(String, Value)>, DbError>) -> bool {
    if e.0@ == "_id"@ {
        out == Ok::<Option<(String, Value)>, DbError>(None)
    } else if is_bucket_key(e.0@) {
        out matches Ok(Some(o)) && o.0 == e.0 && (o.1 matches Value::Dictionary(d) && d@
            == bucket_values(e.1->Document_0@))
    } else {
        forall|j: usize|
            #[trigger] field_at(m, e.0@, j) ==> match out {
                Ok(Some(o)) => o.0 == e.0 && decoded(
                    m.name@,
                    m.fields@[j as int].field_type,
                    true,
                    e.1,
                    seq![PathItem::Key(m.fields@[j as int].name)],
                    Ok(o.1),
                ),
                Ok(None) => false,
                Err(x) => decoded(
                    m.name@,
                    m.fields@[j as int].field_type,
                    true,
                    e.1,
                    seq![PathItem::Key(m.fields@[j as int].name)],
                    Err(x),
                ),
            }
    }
}

/// Reading the entry of an aggregation row succeeds: it is `_id`, a
/// bucket, or a group-by field whose value decodes.
pub open spec fn row_entry_reads(m: Model, e: (String, Bson)) -> bool {
    e.0@ == "_id"@ || is_bucket_key(e.0@) || forall|j: usize|
        #[trigger] field_at(m, e.0@, j) ==> decodes(m.fields@[j as int].field_type, true, e.1)
}

/// Every entry of the row is `_id`, a bucket holding a document, or a
/// group-by field of the model.
pub open spec fn row_well_formed(m: Model, row: Seq<(String, Bson)>) -> bool {
    forall|i: int|
        0 <= i < row.len() && (#[trigger] row[i]).0@ != "_id"@ ==> if is_bucket_key(row[i].0@) {
            row[i].1 is Document
        } else {
            names_field(m, row[i].0@)
        }
}

/// Whether the string starts with an underscore.
pub fn starts_with_underscore(s: &String) -> (r: bool)
    ensures
        r == is_bucket_key(s@),
{
    let t = s.as_str();
    if t.unicode_len() == 0 {
        false
    } else {
        t.get_char(0) == '_'
    }
}

/// The result values of an aggregation bucket.
pub fn bucket_result(ds: &Vec<(String, Bson)>) -> (r: Vec<(String, Value)>)
    ensures
        r@ == bucket_values(ds@),
{
    let mut r: Vec<(String, Value)> = Vec::new();
    let mut i: usize = 0;
    while i < ds.len()
        invariant
            i <= ds@.len(),
            r@ == bucket_values(ds@.take(i as int)),
        decreases ds@.len() - i,
    {
        proof {
            assert(ds@.take(i + 1).drop_last() == ds@.take(i as int));
            assert(ds@.take(i + 1).last() == ds@[i as int]);
        }
        let k = &ds[i].0;
        match &ds[i].1 {
            Bson::Double(x) => r.push((k.clone(), Value::F64(*x))),
            Bson::Int64(x) => r.push((k.clone(), Value::I64(*x))),
            Bson::Int32(x) => r.push((k.clone(), Value::I32(*x))),
            Bson::Null => r.push((k.clone(), Value::Null)),
            _ => {},
        }
        i = i + 1;
    }
    assert(ds@.take(ds@.len() as int) == ds@);
    r
}

/// The present items of a vector, in order.
pub fn present_items<T>(v: Vec<Option<T>>) -> (r: Vec<T>)
    ensures
        r@ == present(v@),
{
    let ghost all = v@;
    let total = v.len();
    let mut rest = v;
    let mut r: Vec<T> = Vec::new();
    let mut i: usize = 0;
    while rest.len() > 0
        invariant
            all.len() == total,
            i <= all.len(),
            rest@ == all.subrange(i as int, all.len() as int),
            r@ == present(all.take(i as int)),
        decreases rest@.len(),
    {
        let item = rest.remove(0);
        proof {
            assert(item == all[i as int]);
            assert(all.take(i + 1).drop_last() == all.take(i as int));
            assert(all.take(i + 1).last() == item);
        }
        match item {
            Some(x) => r.push(x),
            None => {},
        }
        i = i + 1;
    }
    assert(all.take(all.len() as int) == all);
    r
}

/// What each entry of an aggregation row gives.
pub fn aggregate_entries(m: &Model, row: &Vec<(String, Bson)>) -> (r: Result<
    Vec<Option<(String, Value)>>,
    DbError,
>)
    requires
        row_well_formed(*m, row@),
    ensures
        match r {
            Ok(outs) => outs@.len() == row@.len() && forall|i: int|
                0 <= i < row@.len() ==> row_entry(
                    *m,
                    #[trigger] row@[i],
                    Ok::<Option<(String, Value)>, DbError>(outs@[i]),
                ),
            Err(e) => exists|i: int|
                0 <= i < row@.len() && row_entry(
                    *m,
                    #[trigger] row@[i],
                    Err::<Option<(String, Value)>, DbError>(e),
                ) && forall|j: int| 0 <= j < i ==> row_entry_reads(*m, #[trigger] row@[j]),
        },
{
    let id = String::from_str("_id");
    let mut outs: Vec<Option<(String, Value)>> = Vec::new();
    let mut i: usize = 0;
    while i < row.len()
        invariant
            id@ == "_id"@,
            row_well_formed(*m, row@),
            i <= row@.len(),
            outs@.len() == i,
            forall|k: int|
                0 <= k < i ==> row_entry(
                    *m,
                    #[trigger] row@[k],
                    Ok::<Option<(String, Value)>, DbError>(outs@[k]),
                ),
        decreases row@.len() - i,
    {
        let g = &row[i].0;
        let o = &row[i].1;
        if *g == id {
            outs.push(None);
        } else if starts_with_underscore(g) {
            match o {
                Bson::Document(ds) => {
                    outs.push(Some((g.clone(), Value::Dictionary(bucket_result(ds)))));
                },
                _ => {
                    outs.push(None);
                },
            }
        } else {
            assert(names_field(*m, row@[i as int].0@));
            let f = m.field(g);
            proof {
                lemma_field_lookup(*m, g@, f);
            }
            let fi = f.unwrap();
            let field = &m.fields[fi];
            let path = KeyPath::new().with_key(&field.name);
            assert(path.items@ == seq![PathItem::Key(field.name)]);
            match decode(&m.name, &field.field_type, true, o, &path) {
                Ok(v) => outs.push(Some((g.clone(), v))),
                Err(e) => {
                    assert(row_entry(
                        *m,
                        row@[i as int],
                        Err::<Option<(String, Value)>, DbError>(e),
                    ));
                    assert forall|q: int| 0 <= q < i implies row_entry_reads(*m, #[trigger] row@[q]) by {
                        if row@[q].0@ != "_id"@ && !is_bucket_key(row@[q].0@) {
                            assert forall|j: usize| #[trigger] field_at(*m, row@[q].0@, j) implies decodes(
                                m.fields@[j as int].field_type,
                                true,
                                row@[q].1,
                            ) by {
                                lemma_decodes(
                                    m.name@,
                                    m.fields@[j as int].field_type,
                                    true,
                                    row@[q].1,
                                    seq![PathItem::Key(m.fields@[j as int].name)],
                                    Ok(outs@[q]->Some_0.1),
                                );
                            }
                        }
                    }
                    return Err(e);
                },
            }
        }
        i = i + 1;
    }
    Ok(outs)
}

/// The dictionary an aggregation row yields: buckets of result values and
/// decoded group-by fields, in the row's order, without `_id`.
pub fn aggregate_row(m: &Model, row: &Vec<(String, Bson)>) -> (r: Result<Vec<(String, Value)>, DbError>)
    requires
        row_well_formed(*m, row@),
    ensures
        match r {
            Ok(d) => exists|outs: Seq<Option<(String, Value)>>|
                outs.len() == row@.len() && (forall|i: int|
                    0 <= i < row@.len() ==> row_entry(
                        *m,
                        #[trigger] row@[i],
                        Ok::<Option<(String, Value)>, DbError>(outs[i]),
                    )) && d@ == present(outs),
            Err(e) => exists|i: int|
                0 <= i < row@.len() && row_entry(
                    *m,
                    #[trigger] row@[i],
                    Err::<Option<(String, Value)>, DbError>(e),
                ) && forall|j: int| 0 <= j < i ==> row_entry_reads(*m, #[trigger] row@[j]),
        },
{
    match aggregate_entries(m, row) {
        Ok(outs) => {
            let ghost g = outs@;
            let d = present_items(outs);
            assert(g.len() == row@.len() && (forall|i: int|
                0 <= i < row@.len() ==> row_entry(
                    *m,
                    #[trigger] row@[i],
                    Ok::<Option<(String, Value)>, DbError>(g[i]),
                )) && d@ == present(g));
            Ok(d)
        },
        Err(e) => Err(e),
    }
}

/// The finder of an aggregate: each group is a dictionary.
pub open spec fn groups_are_dictionaries(finder: Seq<(String, Value)>) -> bool {
    forall|i: int| 0 <= i < finder.len() ==> (#[trigger] finder[i]).1 is Dictionary
}

/// `r` is the aggregate of no rows for the finder: each group of the
/// finder, in order, with each of its keys mapped to `0` under `_count` and
/// to null elsewhere.
pub open spec fn is_empty_aggregate(finder: Seq<(String, Value)>, r: Seq<(String, Value)>) -> bool {
    &&& r.len() == finder.len()
    &&& forall|i: int|
        0 <= i < finder.len() ==> (#[trigger] r[i]).0 == finder[i].0 && (r[i].1 matches Value::Dictionary(
            d,
        ) && d@.len() == finder[i].1->Dictionary_0@.len() && forall|k: int|
            0 <= k < d@.len() ==> (#[trigger] d@[k]).0 == finder[i].1->Dictionary_0@[k].0 && d@[k].1
                == if finder[i].0@ == "_count"@ {
                Value::I32(0)
            } else {
                Value::Null
            })
}

/// The aggregate of an empty collection, shaped after the finder.
pub fn empty_aggregate(finder: &Vec<(String, Value)>) -> (r: Vec<(String, Value)>)
    requires
        groups_are_dictionaries(finder@),
    ensures
        is_empty_aggregate(finder@, r@),
{
    let count = String::from_str("_count");
    let mut r: Vec<(String, Value)> = Vec::new();
    let mut i: usize = 0;
    while i < finder.len()
        invariant
            count@ == "_count"@,
            groups_are_dictionaries(finder@),
            i <= finder@.len(),
            r@.len() == i,
            forall|q: int|
                0 <= q < i ==> (#[trigger] r@[q]).0 == finder@[q].0 && (r@[q].1 matches Value::Dictionary(
                    d,
                ) && d@.len() == finder@[q].1->Dictionary_0@.len() && forall|k: int|
                    0 <= k < d@.len() ==> (#[trigger] d@[k]).0 == finder@[q].1->Dictionary_0@[k].0
                        && d@[k].1 == if finder@[q].0@ == "_count"@ {
                        Value::I32(0)
                    } else {
                        Value::Null
                    }),
        decreases finder@.len() - i,
    {
        let g = &finder[i].0;
        let is_count = *g == count;
        assert(finder@[i as int].1 is Dictionary);
        let mut d: Vec<(String, Value)> = Vec::new();
        match &finder[i].1 {
            Value::Dictionary(o) => {
                let mut k: usize = 0;
                while k < o.len()
                    invariant
                        k <= o@.len(),
                        d@.len() == k,
                        forall|q: int|
                            0 <= q < k ==> (#[trigger] d@[q]).0 == o@[q].0 && d@[q].1 == if is_count {
                                Value::I32(0)
                            } else {
                                Value::Null
                            },
                    decreases o@.len() - k,
                {
                    let leaf = if is_count {
                        Value::I32(0)
                    } else {
                        Value::Null
                    };
                    d.push((o[k].0.clone(), leaf));
                    k = k + 1;
                }
            },
            _ => {},
        }
        r.push((g.clone(), Value::Dictionary(d)));
        i = i + 1;
    }
    r
}

/// The count of a count pipeline's result: zero without rows, else the
/// `count` of the first row, read as a 64-bit integer.
pub open spec fn count_of(docs: Seq<Vec<(String, Bson)>>, r: i64) -> bool {
    if docs.len() == 0 {
        r == 0
    } else {
        forall|k: usize|
            #[trigger] is_entry_at(docs[0]@, "count"@, Some(k)) ==> match docs[0]@[k as int].1 {
                Bson::Int32(i) => r == i,
                Bson::Int64(i) => r == i,
                _ => false,
            }
    }
}

/// The first row, if any, has a `count` holding an integer.
pub open spec fn count_well_formed(docs: Seq<Vec<(String, Bson)>>) -> bool {
    docs.len() > 0 ==> has_entry(docs[0]@, "count"@) && forall|k: usize|
        #[trigger] is_entry_at(docs[0]@, "count"@, Some(k)) ==> (docs[0]@[k as int].1 is Int32
            || docs[0]@[k as int].1 is Int64)
}

/// Reads the number of matching records from a count pipeline's result.
pub fn count_from_documents(docs: &Vec<Vec<(String, Bson)>>) -> (r: i64)
    requires
        count_well_formed(docs@),
    ensures
        count_of(docs@, r),
{
    if docs.len() == 0 {
        return 0;
    }
    let key = String::from_str("count");
    let e = find_entry(&docs[0], &key);
    proof {
        lemma_entry_lookup(docs@[0]@, key@, e);
    }
    let k = e.unwrap();
    let r: i64 = match &docs[0][k].1 {
        Bson::Int32(i) => *i as i64,
        Bson::Int64(i) => *i,
        _ => 0,
    };
    proof {
        assert forall|q: usize| #[trigger] is_entry_at(docs@[0]@, "count"@, Some(q)) implies q == k by {
            crate::value::lemma_entry_unique(docs@[0]@, "count"@, Some(q), e);
        }
    }
    r
}

/// The finder with its top-level `select` renamed to `_count`, so that
/// counting fields becomes an aggregate.
pub fn rename_select(finder: Vec<(String, Value)>) -> (r: Vec<(String, Value)>)
    ensures
        r@.len() == finder@.len(),
        forall|i: int|
            0 <= i < finder@.len() ==> (#[trigger] r@[i]).1 == finder@[i].1 && r@[i].0@ == if finder@[i].0@
                == "select"@ {
                "_count"@
            } else {
                finder@[i].0@
            },
{
    let select = String::from_str("select");
    let ghost all = finder@;
    let total = finder.len();
    let mut rest = finder;
    let mut r: Vec<(String, Value)> = Vec::new();
    let mut i: usize = 0;
    while rest.len() > 0
        invariant
            select@ == "select"@,
            all == finder@,
            all.len() == total,
            i <= all.len(),
            rest@ == all.subrange(i as int, all.len() as int),
            r@.len() == i,
            forall|q: int|
                0 <= q < i ==> (#[trigger] r@[q]).1 == all[q].1 && r@[q].0@ == if all[q].0@ == "select"@ {
                    "_count"@
                } else {
                    all[q].0@
                },
        decreases rest@.len(),
    {
        let (k, v) = rest.remove(0);
        assert((k, v) == all[i as int]);
        if k == select {
            r.push((String::from_str("_count"), v));
        } else {
            r.push((k, v));
        }
        i = i + 1;
    }
    r
}

/// The finder asks for the rows from the end of its window: its `take` is
/// a negative integer.
pub open spec fn negative_take(finder: Seq<(String, Value)>) -> bool {
    forall|k: usize|
        #[trigger] is_entry_at(finder, "take"@, Some(k)) ==> match finder[k as int].1 {
            Value::I32(t) => t < 0,
            Value::I64(t) => t < 0,
            _ => false,
        }
}

/// Whether the finder's `take` is negative.
pub fn has_negative_take(finder: &Vec<(String, Value)>) -> (r: bool)
    ensures
        r == (has_entry(finder@, "take"@) && negative_take(finder@)),
{
    let key = String::from_str("take");
    let e = find_entry(finder, &key);
    proof {
        lemma_entry_lookup(finder@, key@, e);
        assert forall|q: usize| #[trigger] is_entry_at(finder@, "take"@, Some(q)) implies e == Some(q) by {
            crate::value::lemma_entry_unique(finder@, "take"@, Some(q), e);
        }
    }
    match e {
        Some(k) => match &finder[k].1 {
            Value::I32(t) => *t < 0,
            Value::I64(t) => *t < 0,
            _ => false,
        },
        None => false,
    }
}

/// The fetched rows in the order the finder asked for: reversed where the
/// pipeline read the window's tail in ascending order.
pub fn order_rows<T>(rows: Vec<T>, reverse: bool) -> (r: Vec<T>)
    ensures
        r@ == if reverse {
            rows@.reverse()
        } else {
            rows@
        },
{
    if !reverse {
        return rows;
    }
    let ghost all = rows@;
    let total = rows.len();
    let mut rest = rows;
    let mut r: Vec<T> = Vec::new();
    let mut i: usize = 0;
    while rest.len() > 0
        invariant
            all.len() == total,
            i <= all.len(),
            rest@ == all.subrange(i as int, all.len() as int),
            r@ == all.take(i as int).reverse(),
        decreases rest@.len(),
    {
        let item = rest.remove(0);
        assert(item == all[i as int]);
        r.insert(0, item);
        i = i + 1;
        assert(r@ =~= all.take(i as int).reverse());
    }
    assert(all.take(all.len() as int) == all);
    r
}

/// The error for raw SQL, which this connector does not run.
pub fn raw_sql_error() -> (e: DbError)
    ensures
        e matches DbError::Runtime { message } && message@ == "do not run raw sql on MongoDB database"@,
{
    DbError::Runtime { message: String::from_str("do not run raw sql on MongoDB database") }
}

/// A delete is refused for an object that was never saved.
pub fn check_deletable(is_new: bool, path: KeyPath) -> (r: Result<(), DbError>)
    ensures
        is_new <==> r is Err,
        r matches Err(e) ==> (e matches DbError::ObjectIsNotSavedThusCantBeDeleted { path: p } && p
            == path),
{
    if is_new {
        Err(DbError::ObjectIsNotSavedThusCantBeDeleted { path })
    } else {
        Ok(())
    }
}

/// Whether every entry of an aggregation row is `_id`, a bucket holding a
/// document, or a group-by field of the model.
pub fn check_row(m: &Model, row: &Vec<(String, Bson)>) -> (r: bool)
    ensures
        r == row_well_formed(*m, row@),
{
    let id = String::from_str("_id");
    let mut i: usize = 0;
    while i < row.len()
        invariant
            id@ == "_id"@,
            i <= row@.len(),
            forall|k: int|
                0 <= k < i && (#[trigger] row@[k]).0@ != "_id"@ ==> if is_bucket_key(row@[k].0@) {
                    row@[k].1 is Document
                } else {
                    names_field(*m, row@[k].0@)
                },
        decreases row@.len() - i,
    {
        let g = &row[i].0;
        if *g != id {
            if starts_with_underscore(g) {
                match &row[i].1 {
                    Bson::Document(_) => {},
                    _ => {
                        return false;
                    },
                }
            } else {
                let f = m.field(g);
                proof {
                    lemma_field_lookup(*m, g@, f);
                }
                if f.is_none() {
                    return false;
                }
            }
        }
        i = i + 1;
    }
    true
}

/// Whether the first row, if any, has a `count` holding an integer.
pub fn check_count(docs: &Vec<Vec<(String, Bson)>>) -> (r: bool)
    ensures
        r == count_well_formed(docs@),
{
    if docs.len() == 0 {
        return true;
    }
    let key = String::from_str("count");
    let e = find_entry(&docs[0], &key);
    proof {
        lemma_entry_lookup(docs@[0]@, key@, e);
        assert forall|q: usize| #[trigger] is_entry_at(docs@[0]@, "count"@, Some(q)) implies e == Some(q) by {
            crate::value::lemma_entry_unique(docs@[0]@, "count"@, Some(q), e);
        }
    }
    match e {
        Some(k) => match &docs[0][k].1 {
            Bson::Int32(_) => true,
            Bson::Int64(_) => true,
            _ => false,
        },
        None => false,
    }
}

/// Whether each group of an aggregate finder is a dictionary.
pub fn check_groups(finder: &Vec<(String, Value)>) -> (r: bool)
    ensures
        r == groups_are_dictionaries(finder@),
{
    let mut i: usize = 0;
    while i < finder.len()
        invariant
            i <= finder@.len(),
            forall|k: int| 0 <= k < i ==> (#[trigger] finder@[k]).1 is Dictionary,
        decreases finder@.len() - i,
    {
        match &finder[i].1 {
            Value::Dictionary(_) => {},
            _ => {
                return false;
            },
        }
        i = i + 1;
    }
    true
}

} // verus!
