//! Model descriptors: fields, properties, relations and indexes.
use vstd::prelude::*;
use crate::value::FieldType;

verus! {

/// A stored field: its runtime name, its column in the collection, its
/// declared type and whether it may be null.
#[derive(Debug, PartialEq)]
pub struct Field {
    pub name: String,
    pub column_name: String,
    pub field_type: FieldType,
    pub optional: bool,
}

/// A virtual field whose value is computed by the runtime.
#[derive(Debug, PartialEq)]
pub struct Property {
    pub name: String,
    pub field_type: FieldType,
}

/// A relation to another model, given by its position in the namespace's
/// model list; `is_vec` tells a to-many relation from a to-one.
#[derive(Debug, PartialEq)]
pub struct Relation {
    pub name: String,
    pub model: usize,
    pub is_vec: bool,
}

/// Sort direction of an index item.
#[derive(Debug, PartialEq, Eq, Clone, Copy, Structural)]
pub enum Sort {
    Asc,
    Desc,
}

/// Kind of an index.
#[derive(Debug, PartialEq, Eq, Clone, Copy, Structural)]
pub enum IndexKind {
    Primary,
    Unique,
    Index,
}

/// One key of an index: a field name and its direction.
#[derive(Debug, PartialEq)]
pub struct IndexItem {
    pub field: String,
    pub sort: Sort,
}

/// An index: its kind, its name and its ordered items.
#[derive(Debug, PartialEq)]
pub struct Index {
    pub kind: IndexKind,
    pub name: String,
    pub items: Vec<IndexItem>,
}

/// A model: its name, its collection, its fields, properties, relations and
/// indexes, and the fields that the database fills on insert.
#[derive(Debug, PartialEq)]
pub struct Model {
    pub name: String,
    pub table_name: String,
    pub fields: Vec<Field>,
    pub properties: Vec<Property>,
    pub relations: Vec<Relation>,
    pub indexes: Vec<Index>,
    pub auto_keys: Vec<String>,
}

/// `r` is the position of the first field named `key`, or `None` if no
/// field has that name.
pub open spec fn is_field_named(fields: Seq<Field>, key: Seq<char>, r: Option<usize>) -> bool {
    match r {
        Some(i) => i < fields.len() && fields[i as int].name@ == key && forall|j: int|
            0 <= j < i ==> (#[trigger] fields[j]).name@ != key,
        None => forall|j: int| 0 <= j < fields.len() ==> (#[trigger] fields[j]).name@ != key,
    }
}

/// `r` is the position of the first field stored under column `column`, or
/// `None` if there is none.
pub open spec fn is_field_with_column(fields: Seq<Field>, column: Seq<char>, r: Option<usize>) -> bool {
    match r {
        Some(i) => i < fields.len() && fields[i as int].column_name@ == column && forall|j: int|
            0 <= j < i ==> (#[trigger] fields[j]).column_name@ != column,
        None => forall|j: int| 0 <= j < fields.len() ==> (#[trigger] fields[j]).column_name@ != column,
    }
}

/// `r` is the position of the first property named `key`, or `None`.
pub open spec fn is_property_named(props: Seq<Property>, key: Seq<char>, r: Option<usize>) -> bool {
    match r {
        Some(i) => i < props.len() && props[i as int].name@ == key && forall|j: int|
            0 <= j < i ==> (#[trigger] props[j]).name@ != key,
        None => forall|j: int| 0 <= j < props.len() ==> (#[trigger] props[j]).name@ != key,
    }
}

/// `r` is the position of the first relation named `key`, or `None`.
pub open spec fn is_relation_named(rels: Seq<Relation>, key: Seq<char>, r: Option<usize>) -> bool {
    match r {
        Some(i) => i < rels.len() && rels[i as int].name@ == key && forall|j: int|
            0 <= j < i ==> (#[trigger] rels[j]).name@ != key,
        None => forall|j: int| 0 <= j < rels.len() ==> (#[trigger] rels[j]).name@ != key,
    }
}

impl Model {
    /// The position of the field named `key`.
    pub fn field(&self, key: &String) -> (r: Option<usize>)
        ensures
            is_field_named(self.fields@, key@, r),
    {
        let mut i: usize = 0;
        while i < self.fields.len()
            invariant
                i <= self.fields@.len(),
                forall|j: int| 0 <= j < i ==> (#[trigger] self.fields@[j]).name@ != key@,
            decreases self.fields@.len() - i,
        {
            if self.fields[i].name == *key {
                return Some(i);
            }
            i = i + 1;
        }
        None
    }

    /// The position of the field stored under column `column`.
    pub fn field_with_column_name(&self, column: &String) -> (r: Option<usize>)
        ensures
            is_field_with_column(self.fields@, column@, r),
    {
        let mut i: usize = 0;
        while i < self.fields.len()
            invariant
                i <= self.fields@.len(),
                forall|j: int| 0 <= j < i ==> (#[trigger] self.fields@[j]).column_name@ != column@,
            decreases self.fields@.len() - i,
        {
            if self.fields[i].column_name == *column {
                return Some(i);
            }
            i = i + 1;
        }
        None
    }

    /// The position of the property named `key`.
    pub fn property(&self, key: &String) -> (r: Option<usize>)
        ensures
            is_property_named(self.properties@, key@, r),
    {
        let mut i: usize = 0;
        while i < self.properties.len()
            invariant
                i <= self.properties@.len(),
                forall|j: int| 0 <= j < i ==> (#[trigger] self.properties@[j]).name@ != key@,
            decreases self.properties@.len() - i,
        {
            if self.properties[i].name == *key {
                return Some(i);
            }
            i = i + 1;
        }
        None
    }

    /// The position of the relation named `key`.
    pub fn relation(&self, key: &String) -> (r: Option<usize>)
        ensures
            is_relation_named(self.relations@, key@, r),
    {
        let mut i: usize = 0;
        while i < self.relations.len()
            invariant
                i <= self.relations@.len(),
                forall|j: int| 0 <= j < i ==> (#[trigger] self.relations@[j]).name@ != key@,
            decreases self.relations@.len() - i,
        {
            if self.relations[i].name == *key {
                return Some(i);
            }
            i = i + 1;
        }
        None
    }
}


/// The field named `key` is at position `j` (the first with that name).
pub open spec fn field_at(m: Model, key: Seq<char>, j: usize) -> bool {
    is_field_named(m.fields@, key, Some(j))
}

/// The property named `key` is at position `j` (the first with that name).
pub open spec fn property_at(m: Model, key: Seq<char>, j: usize) -> bool {
    is_property_named(m.properties@, key, Some(j))
}

/// Some field is named `key`.
pub open spec fn names_field(m: Model, key: Seq<char>) -> bool {
    exists|j: usize| field_at(m, key, j)
}

/// Some property is named `key`.
pub open spec fn names_property(m: Model, key: Seq<char>) -> bool {
    exists|j: usize| property_at(m, key, j)
}

/// A field lookup finds something exactly when some field has the name,
/// and then the first such field.
pub proof fn lemma_field_lookup(m: Model, key: Seq<char>, r: Option<usize>)
    requires
        is_field_named(m.fields@, key, r),
    ensures
        r is Some <==> names_field(m, key),
        forall|j: usize| #[trigger] field_at(m, key, j) ==> r == Some(j),
{
    assert forall|j: usize| #[trigger] field_at(m, key, j) implies r == Some(j) by {
        match r {
            Some(i) => {
                if i < j {
                    assert(m.fields@[i as int].name@ == key);
                } else if j < i {
                    assert(m.fields@[j as int].name@ == key);
                }
            },
            None => {
                assert(m.fields@[j as int].name@ == key);
            },
        }
    }
    if r is Some {
        assert(field_at(m, key, r->Some_0));
    }
}

/// A property lookup finds something exactly when some property has the
/// name, and then the first such property.
pub proof fn lemma_property_lookup(m: Model, key: Seq<char>, r: Option<usize>)
    requires
        is_property_named(m.properties@, key, r),
    ensures
        r is Some <==> names_property(m, key),
        forall|j: usize| #[trigger] property_at(m, key, j) ==> r == Some(j),
{
    assert forall|j: usize| #[trigger] property_at(m, key, j) implies r == Some(j) by {
        match r {
            Some(i) => {
                if i < j {
                    assert(m.properties@[i as int].name@ == key);
                } else if j < i {
                    assert(m.properties@[j as int].name@ == key);
                }
            },
            None => {
                assert(m.properties@[j as int].name@ == key);
            },
        }
    }
    if r is Some {
        assert(property_at(m, key, r->Some_0));
    }
}


/// The first field stored under a column is unique.
pub proof fn lemma_column_lookup_unique(fields: Seq<Field>, column: Seq<char>, a: Option<usize>, b: Option<usize>)
    requires
        is_field_with_column(fields, column, a),
        is_field_with_column(fields, column, b),
    ensures
        a == b,
{
    match (a, b) {
        (Some(x), Some(y)) => {
            if x < y {
                assert(fields[x as int].column_name@ == column);
            } else if y < x {
                assert(fields[y as int].column_name@ == column);
            }
        },
        (Some(x), None) => {
            assert(fields[x as int].column_name@ == column);
        },
        (None, Some(y)) => {
            assert(fields[y as int].column_name@ == column);
        },
        _ => {},
    }
}

/// The first relation with a name is unique.
pub proof fn lemma_relation_lookup_unique(rels: Seq<Relation>, key: Seq<char>, a: Option<usize>, b: Option<usize>)
    requires
        is_relation_named(rels, key, a),
        is_relation_named(rels, key, b),
    ensures
        a == b,
{
    match (a, b) {
        (Some(x), Some(y)) => {
            if x < y {
                assert(rels[x as int].name@ == key);
            } else if y < x {
                assert(rels[y as int].name@ == key);
            }
        },
        (Some(x), None) => {
            assert(rels[x as int].name@ == key);
        },
        (None, Some(y)) => {
            assert(rels[y as int].name@ == key);
        },
        _ => {},
    }
}

} // verus!
