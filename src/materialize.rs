//! Turning stored documents into object data, relations included.
use vstd::prelude::*;
use crate::codec::{decode, decoded, decodes, is_decoding_error, lemma_decodes};
use crate::error::{DbError, KeyPath, PathItem};
use crate::model::{Model, is_field_with_column, is_relation_named};
use crate::value::{
    Bson, Value, copy_option, deref_option, get_in, get_in_value, same_option,
};

verus! {

broadcast use vstd::std_specs::vec::group_vec_axioms, vstd::seq::group_seq_axioms;

/// What one key of a stored document becomes on the object.
#[derive(Debug, PartialEq)]
pub enum Slot {
    /// A field's value, under the field's runtime name.
    Field(String, Value),
    /// The related objects of a relation, under the relation's name, with
    /// the relation's arity (to-many or not).
    Related(String, bool, Vec<ObjectData>),
    /// A key that is neither a field's column nor a relation.
    Skipped,
}

/// The data of an object read from a document: one slot per key of the
/// document, in the document's order; the projection to apply to it; and
/// its marks, initialized and no longer new.
#[derive(Debug, PartialEq)]
pub struct ObjectData {
    pub slots: Vec<Slot>,
    pub select: Option<Value>,
    pub initialized: bool,
    pub is_new: bool,
}

/// The `select` of the sub-finder that `inclusion` holds for relation `k`.
pub open spec fn nested_select(inclusion: Option<Value>, k: String) -> Option<Value> {
    get_in(get_in(inclusion, k@), "select"@)
}

/// The relations to read along (the finder's inclusion entry) of the
/// sub-finder that `inclusion` holds for relation `k`.
pub open spec fn nested_inclusion(inclusion: Option<Value>, k: String) -> Option<Value> {
    get_in(get_in(inclusion, k@), "include"@)
}

/// Every relation of every model points at a model of the list.
pub open spec fn relations_resolve(models: Seq<Model>) -> bool {
    forall|i: int, j: int|
        0 <= i < models.len() && 0 <= j < models[i].relations@.len() ==> (#[trigger] models[i].relations@[j]).model
            < models.len()
}

/// `s` is what the entry `e` of a document of model `models[mi]` gives.
/// A key that is the column of a field is decoded at the field's type,
/// under the field's name (which also locates a decoding error); a key that names a relation holds an array of
/// documents, each read as an object of the related model; other keys are
/// skipped.
pub open spec fn reads_slot(models: Seq<Model>, mi: int, e: (String, Bson), inclusion: Option<Value>, s: Slot) -> bool
    decreases e,
{
    let m = models[mi];
    let k = e.0;
    let b = e.1;
    if exists|j: usize| is_field_with_column(m.fields@, k@, Some(j)) {
        forall|j: usize|
            #[trigger] is_field_with_column(m.fields@, k@, Some(j)) ==> (s matches Slot::Field(n, v)
                && n == m.fields@[j as int].name && decoded(
                m.name@,
                m.fields@[j as int].field_type,
                m.fields@[j as int].optional,
                b,
                seq![PathItem::Key(m.fields@[j as int].name)],
                Ok(v),
            ))
    } else if exists|j: usize| is_relation_named(m.relations@, k@, Some(j)) {
        forall|j: usize|
            #[trigger] is_relation_named(m.relations@, k@, Some(j)) ==> (s matches Slot::Related(
                n,
                many,
                objs,
            ) && n == k && many == m.relations@[j as int].is_vec && b is Array && objs@.len() == b->Array_0@.len() && forall|q: int|
                #![trigger b->Array_0@[q]]
                0 <= q < objs@.len() ==> b->Array_0@[q] is Document && reads_object(
                    models,
                    m.relations@[j as int].model as int,
                    b->Array_0@[q]->Document_0@,
                    nested_select(inclusion, k),
                    nested_inclusion(inclusion, k),
                    Ok(objs@[q]),
                ))
    } else {
        s is Skipped
    }
}

/// The element `b` at position `q` of the relation `k` of a document of
/// model `m` fails to read with `e`: it is not a document, or reading it
/// as an object of model `models[ti]` fails.
pub open spec fn element_fails(
    models: Seq<Model>,
    parent: Seq<char>,
    ti: int,
    k: String,
    q: int,
    b: Bson,
    select: Option<Value>,
    inclusion: Option<Value>,
    e: DbError,
) -> bool
    decreases b,
{
    if b is Document {
        reads_object(models, ti, b->Document_0@, select, inclusion, Err(e))
    } else {
        is_decoding_error(Err(e), parent, seq![PathItem::Key(k), PathItem::Index(q as usize)], "document"@)
    }
}

/// Reading the entry `e` of a document of model `models[mi]` fails with
/// `x`: its field does not decode, or its relation's value is not an
/// array, or an element fails, the first that does.
pub open spec fn slot_fails(models: Seq<Model>, mi: int, e: (String, Bson), inclusion: Option<Value>, x: DbError) -> bool
    decreases e,
{
    let m = models[mi];
    let k = e.0;
    let b = e.1;
    if exists|j: usize| is_field_with_column(m.fields@, k@, Some(j)) {
        exists|j: usize|
            #[trigger] is_field_with_column(m.fields@, k@, Some(j)) && decoded(
                m.name@,
                m.fields@[j as int].field_type,
                m.fields@[j as int].optional,
                b,
                seq![PathItem::Key(m.fields@[j as int].name)],
                Err(x),
            )
    } else {
        exists|j: usize|
            #[trigger] is_relation_named(m.relations@, k@, Some(j)) && if b is Array {
                exists|q: int|
                    #![trigger b->Array_0@[q]]
                    0 <= q < b->Array_0@.len() && element_fails(
                        models,
                        m.name@,
                        m.relations@[j as int].model as int,
                        k,
                        q,
                        b->Array_0@[q],
                        nested_select(inclusion, k),
                        nested_inclusion(inclusion, k),
                        x,
                    ) && forall|p: int|
                        #![trigger b->Array_0@[p]]
                        0 <= p < q ==> b->Array_0@[p] is Document && object_succeeds(
                            models,
                            m.relations@[j as int].model as int,
                            b->Array_0@[p]->Document_0@,
                        )
            } else {
                is_decoding_error(Err(x), m.name@, seq![PathItem::Key(k)], "array"@)
            }
    }
}

/// Reading the entry `e` of a document of model `models[mi]` succeeds.
pub open spec fn slot_succeeds(models: Seq<Model>, mi: int, e: (String, Bson)) -> bool
    decreases e,
{
    let m = models[mi];
    let k = e.0;
    let b = e.1;
    if exists|j: usize| is_field_with_column(m.fields@, k@, Some(j)) {
        forall|j: usize|
            #[trigger] is_field_with_column(m.fields@, k@, Some(j)) ==> decodes(
                m.fields@[j as int].field_type,
                m.fields@[j as int].optional,
                b,
            )
    } else if exists|j: usize| is_relation_named(m.relations@, k@, Some(j)) {
        forall|j: usize|
            #[trigger] is_relation_named(m.relations@, k@, Some(j)) ==> (b is Array && forall|q: int|
                #![trigger b->Array_0@[q]]
                0 <= q < b->Array_0@.len() ==> b->Array_0@[q] is Document && object_succeeds(
                    models,
                    m.relations@[j as int].model as int,
                    b->Array_0@[q]->Document_0@,
                ))
    } else {
        true
    }
}

/// Reading the document `doc` of model `models[mi]` succeeds.
pub open spec fn object_succeeds(models: Seq<Model>, mi: int, doc: Seq<(String, Bson)>) -> bool
    decreases doc,
{
    forall|i: int| 0 <= i < doc.len() ==> slot_succeeds(models, mi, #[trigger] doc[i])
}

/// `r` is what the document `doc` of model `models[mi]` gives, read with
/// the level's `select` and `inclusion` (the relations to read along): a slot per key in order (relations
/// read with the sub-finder that `inclusion` holds for them), a copy of the
/// `select` to apply, the object marked initialized and not new; or the
/// failure of its first key that fails.
pub open spec fn reads_object(
    models: Seq<Model>,
    mi: int,
    doc: Seq<(String, Bson)>,
    select: Option<Value>,
    inclusion: Option<Value>,
    r: Result<ObjectData, DbError>,
) -> bool
    decreases doc,
{
    match r {
        Ok(obj) => obj.slots@.len() == doc.len() && (forall|i: int|
            0 <= i < doc.len() ==> reads_slot(models, mi, #[trigger] doc[i], inclusion, obj.slots@[i]))
            && same_option(select, obj.select) && obj.initialized && !obj.is_new,
        Err(x) => exists|i: int|
            0 <= i < doc.len() && slot_fails(models, mi, #[trigger] doc[i], inclusion, x) && forall|j: int|
                0 <= j < i ==> slot_succeeds(models, mi, #[trigger] doc[j]),
    }
}

/// A slot that reads means the entry reads successfully.
pub proof fn lemma_slot_reads(models: Seq<Model>, mi: int, e: (String, Bson), inclusion: Option<Value>, s: Slot)
    requires
        reads_slot(models, mi, e, inclusion, s),
    ensures
        slot_succeeds(models, mi, e),
    decreases e,
{
    let m = models[mi];
    let k = e.0;
    let b = e.1;
    if exists|j: usize| is_field_with_column(m.fields@, k@, Some(j)) {
        assert forall|j: usize| #[trigger] is_field_with_column(m.fields@, k@, Some(j)) implies decodes(
            m.fields@[j as int].field_type,
            m.fields@[j as int].optional,
            b,
        ) by {
            let v = s->Field_1;
            lemma_decodes(
                m.name@,
                m.fields@[j as int].field_type,
                m.fields@[j as int].optional,
                b,
                seq![PathItem::Key(m.fields@[j as int].name)],
                Ok(v),
            );
        }
    } else if exists|j: usize| is_relation_named(m.relations@, k@, Some(j)) {
        assert forall|j: usize| #[trigger] is_relation_named(m.relations@, k@, Some(j)) implies (b is Array
            && forall|q: int|
            #![trigger b->Array_0@[q]]
            0 <= q < b->Array_0@.len() ==> b->Array_0@[q] is Document && object_succeeds(
                models,
                m.relations@[j as int].model as int,
                b->Array_0@[q]->Document_0@,
            )) by {
            let objs = s->Related_2;
            assert forall|q: int|
                #![trigger b->Array_0@[q]]
                0 <= q < b->Array_0@.len() implies b->Array_0@[q] is Document && object_succeeds(
                models,
                m.relations@[j as int].model as int,
                b->Array_0@[q]->Document_0@,
            ) by {
                lemma_object_reads(
                    models,
                    m.relations@[j as int].model as int,
                    b->Array_0@[q]->Document_0@,
                    nested_select(inclusion, k),
                    nested_inclusion(inclusion, k),
                    Ok(objs@[q]),
                );
            }
        }
    }
}

/// A failing entry does not read successfully.
pub proof fn lemma_slot_fails(models: Seq<Model>, mi: int, e: (String, Bson), inclusion: Option<Value>, x: DbError)
    requires
        slot_fails(models, mi, e, inclusion, x),
    ensures
        !slot_succeeds(models, mi, e),
    decreases e,
{
    let m = models[mi];
    let k = e.0;
    let b = e.1;
    if exists|j: usize| is_field_with_column(m.fields@, k@, Some(j)) {
        let j = choose|j: usize|
            #[trigger] is_field_with_column(m.fields@, k@, Some(j)) && decoded(
                m.name@,
                m.fields@[j as int].field_type,
                m.fields@[j as int].optional,
                b,
                seq![PathItem::Key(m.fields@[j as int].name)],
                Err(x),
            );
        lemma_decodes(
            m.name@,
            m.fields@[j as int].field_type,
            m.fields@[j as int].optional,
            b,
            seq![PathItem::Key(m.fields@[j as int].name)],
            Err(x),
        );
    } else {
        let j = choose|j: usize|
            #[trigger] is_relation_named(m.relations@, k@, Some(j)) && if b is Array {
                exists|q: int|
                    #![trigger b->Array_0@[q]]
                    0 <= q < b->Array_0@.len() && element_fails(
                        models,
                        m.name@,
                        m.relations@[j as int].model as int,
                        k,
                        q,
                        b->Array_0@[q],
                        nested_select(inclusion, k),
                        nested_inclusion(inclusion, k),
                        x,
                    ) && forall|p: int|
                        #![trigger b->Array_0@[p]]
                        0 <= p < q ==> b->Array_0@[p] is Document && object_succeeds(
                            models,
                            m.relations@[j as int].model as int,
                            b->Array_0@[p]->Document_0@,
                        )
            } else {
                is_decoding_error(Err(x), m.name@, seq![PathItem::Key(k)], "array"@)
            };
        if b is Array {
            let q = choose|q: int|
                #![trigger b->Array_0@[q]]
                0 <= q < b->Array_0@.len() && element_fails(
                    models,
                    m.name@,
                    m.relations@[j as int].model as int,
                    k,
                    q,
                    b->Array_0@[q],
                    nested_select(inclusion, k),
                    nested_inclusion(inclusion, k),
                    x,
                );
            if b->Array_0@[q] is Document {
                lemma_object_reads(
                    models,
                    m.relations@[j as int].model as int,
                    b->Array_0@[q]->Document_0@,
                    nested_select(inclusion, k),
                    nested_inclusion(inclusion, k),
                    Err(x),
                );
            }
        }
    }
}

/// Reading a document succeeds exactly when `object_succeeds` says so.
pub proof fn lemma_object_reads(
    models: Seq<Model>,
    mi: int,
    doc: Seq<(String, Bson)>,
    select: Option<Value>,
    inclusion: Option<Value>,
    r: Result<ObjectData, DbError>,
)
    requires
        reads_object(models, mi, doc, select, inclusion, r),
    ensures
        (r is Ok) == object_succeeds(models, mi, doc),
    decreases doc,
{
    match r {
        Ok(obj) => {
            assert forall|i: int| 0 <= i < doc.len() implies slot_succeeds(models, mi, #[trigger] doc[i]) by {
                lemma_slot_reads(models, mi, doc[i], inclusion, obj.slots@[i]);
            }
        },
        Err(x) => {
            let i = choose|i: int|
                0 <= i < doc.len() && slot_fails(models, mi, #[trigger] doc[i], inclusion, x) && forall|j: int|
                    0 <= j < i ==> slot_succeeds(models, mi, #[trigger] doc[j]);
            lemma_slot_fails(models, mi, doc[i], inclusion, x);
        },
    }
}

fn relation_error(model: &String, path: KeyPath, expected: &str) -> (e: DbError)
    ensures
        is_decoding_error(Err(e), model@, path.items@, expected@),
{
    DbError::RecordDecodingError {
        model: model.clone(),
        path,
        expected: String::from_str(expected),
    }
}

/// Reads the data of an object of model `models[mi]` from a stored
/// document.
pub fn document_to_object(
    models: &Vec<Model>,
    mi: usize,
    doc: &Vec<(String, Bson)>,
    select: Option<&Value>,
    inclusion: Option<&Value>,
) -> (r: Result<ObjectData, DbError>)
    requires
        mi < models@.len(),
        relations_resolve(models@),
    ensures
        reads_object(models@, mi as int, doc@, deref_option(select), deref_option(inclusion), r),
    decreases *doc,
{
    let mut slots: Vec<Slot> = Vec::new();
    let mut i: usize = 0;
    while i < doc.len()
        invariant
            mi < models@.len(),
            relations_resolve(models@),
            i <= doc@.len(),
            slots@.len() == i,
            forall|k: int|
                0 <= k < i ==> reads_slot(
                    models@,
                    mi as int,
                    #[trigger] doc@[k],
                    deref_option(inclusion),
                    slots@[k],
                ),
        decreases doc@.len() - i,
    {
        proof {
            assert(decreases_to!(*doc => doc[i as int]));
        }
        match read_slot(models, mi, &doc[i], inclusion) {
            Ok(slot) => slots.push(slot),
            Err(x) => {
                assert(slot_fails(models@, mi as int, doc@[i as int], deref_option(inclusion), x));
                assert forall|j: int| 0 <= j < i implies slot_succeeds(models@, mi as int, #[trigger] doc@[j]) by {
                    lemma_slot_reads(models@, mi as int, doc@[j], deref_option(inclusion), slots@[j]);
                }
                return Err(x);
            },
        }
        i = i + 1;
    }
    Ok(ObjectData { slots, select: copy_option(select), initialized: true, is_new: false })
}

/// What one entry of a document of model `models[mi]` gives.
pub fn read_slot(models: &Vec<Model>, mi: usize, e: &(String, Bson), inclusion: Option<&Value>) -> (r: Result<
    Slot,
    DbError,
>)
    requires
        mi < models@.len(),
        relations_resolve(models@),
    ensures
        match r {
            Ok(s) => reads_slot(models@, mi as int, *e, deref_option(inclusion), s),
            Err(x) => slot_fails(models@, mi as int, *e, deref_option(inclusion), x),
        },
    decreases *e,
{
    let m = &models[mi];
    let f = m.field_with_column_name(&e.0);
    proof {
        assert forall|j: usize| #[trigger] is_field_with_column(m.fields@, e.0@, Some(j)) implies f
            == Some(j) by {
            crate::model::lemma_column_lookup_unique(m.fields@, e.0@, Some(j), f);
        }
        if f is Some {
            assert(is_field_with_column(m.fields@, e.0@, Some(f->Some_0)));
        }
    }
    match f {
        Some(j) => {
            let field = &m.fields[j];
            let p = KeyPath::new().with_key(&field.name);
            assert(p.items@ == seq![PathItem::Key(field.name)]);
            match decode(&m.name, &field.field_type, field.optional, &e.1, &p) {
                Ok(v) => Ok(Slot::Field(field.name.clone(), v)),
                Err(x) => Err(x),
            }
        },
        None => {
            let rel = m.relation(&e.0);
            proof {
                assert forall|j: usize| #[trigger] is_relation_named(m.relations@, e.0@, Some(j)) implies rel
                    == Some(j) by {
                    crate::model::lemma_relation_lookup_unique(m.relations@, e.0@, Some(j), rel);
                }
                if rel is Some {
                    assert(is_relation_named(m.relations@, e.0@, Some(rel->Some_0)));
                }
            }
            match rel {
                Some(ri) => {
                    let target = m.relations[ri].model;
                    assert(target < models@.len()) by {
                        assert(models@[mi as int].relations@[ri as int].model < models@.len());
                    }
                    match &e.1 {
                        Bson::Array(items) => {
                            let inner = get_in_value(inclusion, e.0.as_str());
                            let inner_select = get_in_value(inner, "select");
                            let inner_inclusion = get_in_value(inner, "include");
                            match related_objects(
                                models,
                                &m.name,
                                target,
                                &e.0,
                                items,
                                inner_select,
                                inner_inclusion,
                            ) {
                                Ok(objs) => Ok(Slot::Related(e.0.clone(), m.relations[ri].is_vec, objs)),
                                Err(x) => Err(x),
                            }
                        },
                        _ => {
                            let p = KeyPath::new().with_key(&e.0);
                            assert(p.items@ == seq![PathItem::Key(e.0)]);
                            Err(relation_error(&m.name, p, "array"))
                        },
                    }
                },
                None => Ok(Slot::Skipped),
            }
        },
    }
}

/// Reads each element of a relation's array as an object of model
/// `models[ti]`.
pub fn related_objects(
    models: &Vec<Model>,
    parent: &String,
    ti: usize,
    key: &String,
    items: &Vec<Bson>,
    select: Option<&Value>,
    inclusion: Option<&Value>,
) -> (r: Result<Vec<ObjectData>, DbError>)
    requires
        ti < models@.len(),
        relations_resolve(models@),
    ensures
        match r {
            Ok(objs) => objs@.len() == items@.len() && forall|q: int|
                #![trigger items@[q]]
                0 <= q < objs@.len() ==> items@[q] is Document && reads_object(
                    models@,
                    ti as int,
                    items@[q]->Document_0@,
                    deref_option(select),
                    deref_option(inclusion),
                    Ok(objs@[q]),
                ),
            Err(x) => exists|q: int|
                #![trigger items@[q]]
                0 <= q < items@.len() && element_fails(
                    models@,
                    parent@,
                    ti as int,
                    *key,
                    q,
                    items@[q],
                    deref_option(select),
                    deref_option(inclusion),
                    x,
                ) && forall|p: int|
                    #![trigger items@[p]]
                    0 <= p < q ==> items@[p] is Document && object_succeeds(
                        models@,
                        ti as int,
                        items@[p]->Document_0@,
                    ),
        },
    decreases *items,
{
    let mut objs: Vec<ObjectData> = Vec::new();
    let mut q: usize = 0;
    while q < items.len()
        invariant
            ti < models@.len(),
            relations_resolve(models@),
            q <= items@.len(),
            objs@.len() == q,
            forall|k: int|
                #![trigger items@[k]]
                0 <= k < q ==> items@[k] is Document && reads_object(
                    models@,
                    ti as int,
                    items@[k]->Document_0@,
                    deref_option(select),
                    deref_option(inclusion),
                    Ok(objs@[k]),
                ),
        decreases items@.len() - q,
    {
        proof {
            assert(decreases_to!(*items => items[q as int]));
        }
        match &items[q] {
            Bson::Document(inner) => {
                match document_to_object(models, ti, inner, select, inclusion) {
                    Ok(obj) => objs.push(obj),
                    Err(x) => {
                        assert(element_fails(
                    models@,
                    parent@,
                    ti as int,
                    *key,
                    q as int,
                    items@[q as int],
                    deref_option(select),
                    deref_option(inclusion),
                    x,
                ));
                        assert forall|p: int|
                            #![trigger items@[p]]
                            0 <= p < q implies items@[p] is Document && object_succeeds(
                            models@,
                            ti as int,
                            items@[p]->Document_0@,
                        ) by {
                            lemma_object_reads(
                                models@,
                                ti as int,
                                items@[p]->Document_0@,
                                deref_option(select),
                                deref_option(inclusion),
                                Ok(objs@[p]),
                            );
                        }
                        return Err(x);
                    },
                }
            },
            _ => {
                let p = KeyPath::new().with_key(key).with_index(q);
                assert(p.items@ == seq![PathItem::Key(*key), PathItem::Index(q)]);
                let x = relation_error(parent, p, "document");
                assert(element_fails(
                    models@,
                    parent@,
                    ti as int,
                    *key,
                    q as int,
                    items@[q as int],
                    deref_option(select),
                    deref_option(inclusion),
                    x,
                ));
                assert forall|k: int|
                    #![trigger items@[k]]
                    0 <= k < q implies items@[k] is Document && object_succeeds(
                    models@,
                    ti as int,
                    items@[k]->Document_0@,
                ) by {
                    lemma_object_reads(
                        models@,
                        ti as int,
                        items@[k]->Document_0@,
                        deref_option(select),
                        deref_option(inclusion),
                        Ok(objs@[k]),
                    );
                }
                return Err(x);
            },
        }
        q = q + 1;
    }
    Ok(objs)
}

/// Whether every relation of every model points at a model of the list.
pub fn check_relations(models: &Vec<Model>) -> (r: bool)
    ensures
        r == relations_resolve(models@),
{
    let mut i: usize = 0;
    while i < models.len()
        invariant
            i <= models@.len(),
            forall|a: int, j: int|
                0 <= a < i && 0 <= j < models@[a].relations@.len() ==> (#[trigger] models@[a].relations@[j]).model
                    < models@.len(),
        decreases models@.len() - i,
    {
        let m = &models[i];
        let mut j: usize = 0;
        while j < m.relations.len()
            invariant
                j <= m.relations@.len(),
                i < models@.len(),
                m == models@[i as int],
                forall|a: int, q: int|
                    0 <= a < i && 0 <= q < models@[a].relations@.len() ==> (#[trigger] models@[a].relations@[q]).model
                        < models@.len(),
                forall|q: int| 0 <= q < j ==> (#[trigger] m.relations@[q]).model < models@.len(),
            decreases m.relations@.len() - j,
        {
            if m.relations[j].model >= models.len() {
                assert(models@[i as int].relations@[j as int].model >= models@.len());
                return false;
            }
            j = j + 1;
        }
        i = i + 1;
    }
    true
}

/// The object of the first row a unique find returned, if any.
pub fn read_first(
    models: &Vec<Model>,
    mi: usize,
    docs: &Vec<Vec<(String, Bson)>>,
    select: Option<&Value>,
    inclusion: Option<&Value>,
) -> (r: Result<Option<ObjectData>, DbError>)
    requires
        mi < models@.len(),
        relations_resolve(models@),
    ensures
        docs@.len() == 0 ==> r == Ok::<Option<ObjectData>, DbError>(None),
        docs@.len() > 0 ==> match r {
            Ok(Some(o)) => reads_object(
                models@,
                mi as int,
                docs@[0]@,
                deref_option(select),
                deref_option(inclusion),
                Ok(o),
            ),
            Ok(None) => false,
            Err(x) => reads_object(
                models@,
                mi as int,
                docs@[0]@,
                deref_option(select),
                deref_option(inclusion),
                Err(x),
            ),
        },
{
    if docs.len() == 0 {
        return Ok(None);
    }
    match document_to_object(models, mi, &docs[0], select, inclusion) {
        Ok(o) => Ok(Some(o)),
        Err(x) => Err(x),
    }
}

/// The objects of the rows a find returned, in order; or the position of
/// the first row that does not read, and why.
pub fn read_rows(
    models: &Vec<Model>,
    mi: usize,
    docs: &Vec<Vec<(String, Bson)>>,
    select: Option<&Value>,
    inclusion: Option<&Value>,
) -> (r: Result<Vec<ObjectData>, (usize, DbError)>)
    requires
        mi < models@.len(),
        relations_resolve(models@),
    ensures
        match r {
            Ok(objs) => objs@.len() == docs@.len() && forall|i: int|
                0 <= i < docs@.len() ==> reads_object(
                    models@,
                    mi as int,
                    (#[trigger] docs@[i])@,
                    deref_option(select),
                    deref_option(inclusion),
                    Ok(objs@[i]),
                ),
            Err((i, x)) => i < docs@.len() && reads_object(
                models@,
                mi as int,
                docs@[i as int]@,
                deref_option(select),
                deref_option(inclusion),
                Err(x),
            ) && forall|j: int| 0 <= j < i ==> object_succeeds(models@, mi as int, (#[trigger] docs@[j])@),
        },
{
    let mut objs: Vec<ObjectData> = Vec::new();
    let mut i: usize = 0;
    while i < docs.len()
        invariant
            mi < models@.len(),
            relations_resolve(models@),
            i <= docs@.len(),
            objs@.len() == i,
            forall|k: int|
                0 <= k < i ==> reads_object(
                    models@,
                    mi as int,
                    (#[trigger] docs@[k])@,
                    deref_option(select),
                    deref_option(inclusion),
                    Ok(objs@[k]),
                ),
        decreases docs@.len() - i,
    {
        match document_to_object(models, mi, &docs[i], select, inclusion) {
            Ok(o) => objs.push(o),
            Err(x) => {
                assert forall|j: int| 0 <= j < i implies object_succeeds(models@, mi as int, (#[trigger] docs@[j])@) by {
                    lemma_object_reads(
                        models@,
                        mi as int,
                        docs@[j]@,
                        deref_option(select),
                        deref_option(inclusion),
                        Ok(objs@[j]),
                    );
                }
                return Err((i, x));
            },
        }
        i = i + 1;
    }
    Ok(objs)
}

} // verus!
