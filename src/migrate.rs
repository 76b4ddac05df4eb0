//! Index reconciliation: comparing declared indexes with the ones a
//! collection holds, and the plan that converges them.
use vstd::prelude::*;
use crate::model::{
    Index, IndexItem, IndexKind, Model, Sort, field_at, lemma_field_lookup, names_field,
};
use crate::value::Bson;

verus! {

/// An index as the server lists it: its key document, its name and its
/// unique flag, each as given.
#[derive(Debug, PartialEq)]
pub struct LiveIndex {
    pub keys: Vec<(String, Bson)>,
    pub name: Option<String>,
    pub unique: Option<bool>,
}

/// What to create on the server for a declared index.
#[derive(Debug, PartialEq)]
pub struct IndexSpec {
    pub name: String,
    pub unique: bool,
    pub sparse: bool,
    pub keys: Vec<(String, i32)>,
}

/// What becomes of a live index: the implicit `_id` index is never
/// touched; one that matches its declaration is kept; one that no
/// declaration names is dropped; one that differs from the declaration at
/// the given position is dropped and created anew from it.
#[derive(Debug, PartialEq, Eq, Clone, Copy, Structural)]
pub enum LiveAction {
    Implicit,
    Keep,
    Drop,
    Replace(usize),
}

/// The reconciliation of one collection: an action per live index, and
/// for each declared index whether to create it.
#[derive(Debug, PartialEq)]
pub struct MigrationPlan {
    pub live: Vec<LiveAction>,
    pub create: Vec<bool>,
}

/// The key document is the implicit `{_id: 1}`.
pub open spec fn is_id_keys(keys: Seq<(String, Bson)>) -> bool {
    keys.len() == 1 && keys[0].0@ == "_id"@ && keys[0].1 == Bson::Int32(1)
}

/// The sort of a live key: ascending for 1, descending otherwise.
pub open spec fn live_sort(b: Bson) -> Sort {
    if b == Bson::Int32(1) {
        Sort::Asc
    } else {
        Sort::Desc
    }
}

/// Every key of the live index has a 32-bit integer direction.
pub open spec fn has_int_directions(l: LiveIndex) -> bool {
    forall|i: int| 0 <= i < l.keys@.len() ==> (#[trigger] l.keys@[i]).1 is Int32
}

/// `d` is the index that the live index `l` reads as: unique where the
/// server says so, else a plain index; the live name; one item per key, in
/// order, ascending for direction 1.
pub open spec fn reads_as(l: LiveIndex, d: Index) -> bool {
    &&& d.kind == if l.unique == Some(true) {
        IndexKind::Unique
    } else {
        IndexKind::Index
    }
    &&& l.name matches Some(n) && d.name@ == n@
    &&& d.items@.len() == l.keys@.len()
    &&& forall|i: int|
        0 <= i < l.keys@.len() ==> (#[trigger] d.items@[i]).field == l.keys@[i].0 && d.items@[i].sort
            == live_sort(l.keys@[i].1)
}

/// Two indexes are the same: same kind, same name, same items in order.
pub open spec fn same_index(a: Index, b: Index) -> bool {
    &&& a.kind == b.kind
    &&& a.name@ == b.name@
    &&& a.items@.len() == b.items@.len()
    &&& forall|i: int|
        0 <= i < a.items@.len() ==> (#[trigger] a.items@[i]).field@ == b.items@[i].field@
            && a.items@[i].sort == b.items@[i].sort
}

/// The declared index `d` of model `m` is what the live index `l` holds:
/// a live unique index holds a unique or primary declaration, any other a
/// plain one; the names agree; and item for item, the live key is the
/// column of the field the item names, with the item's direction.
pub open spec fn live_matches(m: Model, d: Index, l: LiveIndex) -> bool {
    &&& if l.unique == Some(true) {
        d.kind == IndexKind::Unique || d.kind == IndexKind::Primary
    } else {
        d.kind == IndexKind::Index
    }
    &&& l.name matches Some(n) && d.name@ == n@
    &&& d.items@.len() == l.keys@.len()
    &&& forall|i: int|
        0 <= i < l.keys@.len() ==> names_field(m, (#[trigger] d.items@[i]).field@) && (forall|f: usize|
            #[trigger] field_at(m, d.items@[i].field@, f) ==> m.fields@[f as int].column_name@
                == l.keys@[i].0@) && d.items@[i].sort == live_sort(l.keys@[i].1)
}

/// `r` is the position of the first declared index named `name`, or `None`.
pub open spec fn is_index_named(indexes: Seq<Index>, name: Seq<char>, r: Option<usize>) -> bool {
    match r {
        Some(i) => i < indexes.len() && indexes[i as int].name@ == name && forall|j: int|
            0 <= j < i ==> (#[trigger] indexes[j]).name@ != name,
        None => forall|j: int| 0 <= j < indexes.len() ==> (#[trigger] indexes[j]).name@ != name,
    }
}

/// `a` is the action for the live index `l` of a collection of model `m`.
pub open spec fn live_action(m: Model, l: LiveIndex, a: LiveAction) -> bool {
    if is_id_keys(l.keys@) {
        a == LiveAction::Implicit
    } else {
        forall|r: Option<usize>|
            #[trigger] is_index_named(m.indexes@, l.name->Some_0@, r) ==> match r {
                None => a == LiveAction::Drop,
                Some(j) => if live_matches(m, m.indexes@[j as int], l) {
                    a == LiveAction::Keep
                } else {
                    a == LiveAction::Replace(j)
                },
            }
    }
}

/// The declared index is a single key over the field stored under `_id`,
/// which the collection always has.
pub open spec fn is_implicit_id(m: Model, d: Index) -> bool {
    d.items@.len() == 1 && forall|j: usize|
        #[trigger] field_at(m, d.items@[0].field@, j) ==> m.fields@[j as int].column_name@ == "_id"@
}

/// Some live index other than `{_id: 1}` bears the name.
pub open spec fn live_has_name(live: Seq<LiveIndex>, name: Seq<char>) -> bool {
    exists|i: int|
        0 <= i < live.len() && !is_id_keys((#[trigger] live[i]).keys@) && (live[i].name matches Some(
            n,
        ) && n@ == name)
}

/// The declared index must be created: no live index was reviewed under
/// its name, and it is not the implicit `_id` index.
pub open spec fn must_create(m: Model, live: Seq<LiveIndex>, d: Index) -> bool {
    !live_has_name(live, d.name@) && !is_implicit_id(m, d)
}

/// Every live index but `{_id: 1}` is named, and one that a declaration
/// names has integer directions (it is compared with that declaration).
pub open spec fn live_well_formed(m: Model, live: Seq<LiveIndex>) -> bool {
    forall|i: int|
        0 <= i < live.len() && !is_id_keys((#[trigger] live[i]).keys@) ==> live[i].name is Some
            && forall|j: usize|
            #[trigger] is_index_named(m.indexes@, live[i].name->Some_0@, Some(j)) ==> has_int_directions(
                live[i],
            )
}

/// A declared single-key index that no live index is named after names a
/// field (whose column tells whether it is the implicit `_id` index).
pub open spec fn single_keys_resolve(m: Model, live: Seq<LiveIndex>) -> bool {
    forall|j: int|
        0 <= j < m.indexes@.len() && !live_has_name(live, (#[trigger] m.indexes@[j]).name@)
            && m.indexes@[j].items@.len() == 1 ==> names_field(m, m.indexes@[j].items@[0].field@)
}

/// Every item of the declared index names a field.
pub open spec fn items_name_fields(m: Model, d: Index) -> bool {
    forall|k: int| 0 <= k < d.items@.len() ==> names_field(m, (#[trigger] d.items@[k]).field@)
}

/// `p` is the reconciliation plan of model `m` against the live indexes.
pub open spec fn is_migration_plan(m: Model, live: Seq<LiveIndex>, p: MigrationPlan) -> bool {
    &&& p.live@.len() == live.len()
    &&& forall|i: int| 0 <= i < live.len() ==> live_action(m, #[trigger] live[i], p.live@[i])
    &&& p.create@.len() == m.indexes@.len()
    &&& forall|j: int|
        0 <= j < m.indexes@.len() ==> #[trigger] p.create@[j] == must_create(m, live, m.indexes@[j])
}

/// The index a live index reads as.
pub fn from_index_model(l: &LiveIndex) -> (d: Index)
    requires
        l.name is Some,
        has_int_directions(*l),
    ensures
        reads_as(*l, d),
{
    let mut items: Vec<IndexItem> = Vec::new();
    let mut i: usize = 0;
    while i < l.keys.len()
        invariant
            i <= l.keys@.len(),
            has_int_directions(*l),
            items@.len() == i,
            forall|k: int|
                0 <= k < i ==> (#[trigger] items@[k]).field == l.keys@[k].0 && items@[k].sort
                    == live_sort(l.keys@[k].1),
        decreases l.keys@.len() - i,
    {
        let sort = match &l.keys[i].1 {
            Bson::Int32(v) => if *v == 1 {
                Sort::Asc
            } else {
                Sort::Desc
            },
            _ => Sort::Desc,
        };
        items.push(IndexItem { field: l.keys[i].0.clone(), sort });
        i = i + 1;
    }
    let unique = match l.unique {
        Some(u) => u,
        None => false,
    };
    let name = match &l.name {
        Some(n) => n.clone(),
        None => String::new(),
    };
    Index { kind: if unique { IndexKind::Unique } else { IndexKind::Index }, name, items }
}

impl Index {
    /// Whether the two indexes are the same: kind, name and items in order.
    pub fn same_as(&self, other: &Index) -> (r: bool)
        ensures
            r == same_index(*self, *other),
    {
        if self.kind != other.kind || self.name != other.name || self.items.len()
            != other.items.len() {
            return false;
        }
        let mut i: usize = 0;
        while i < self.items.len()
            invariant
                i <= self.items@.len(),
                self.items@.len() == other.items@.len(),
                forall|k: int|
                    0 <= k < i ==> (#[trigger] self.items@[k]).field@ == other.items@[k].field@
                        && self.items@[k].sort == other.items@[k].sort,
            decreases self.items@.len() - i,
        {
            if self.items[i].field != other.items[i].field || self.items[i].sort
                != other.items[i].sort {
                return false;
            }
            i = i + 1;
        }
        true
    }
}

/// Conversion of a listed index into a declared one.
pub trait FromIndexModel: Sized {
    fn from_index_model(index_model: &LiveIndex) -> Self
        requires
            index_model.name is Some,
            has_int_directions(*index_model),
    ;
}

impl FromIndexModel for Index {
    fn from_index_model(index_model: &LiveIndex) -> Self {
        from_index_model(index_model)
    }
}

proof fn lemma_index_named_unique(indexes: Seq<Index>, name: Seq<char>, a: Option<usize>, b: Option<usize>)
    requires
        is_index_named(indexes, name, a),
        is_index_named(indexes, name, b),
    ensures
        a == b,
{
    match (a, b) {
        (Some(x), Some(y)) => {
            if x < y {
                assert(indexes[x as int].name@ == name);
            } else if y < x {
                assert(indexes[y as int].name@ == name);
            }
        },
        (Some(x), None) => {
            assert(indexes[x as int].name@ == name);
        },
        (None, Some(y)) => {
            assert(indexes[y as int].name@ == name);
        },
        _ => {},
    }
}

/// Whether a key document is the implicit `{_id: 1}`.
pub fn is_id_index(keys: &Vec<(String, Bson)>) -> (r: bool)
    ensures
        r == is_id_keys(keys@),
{
    if keys.len() != 1 {
        return false;
    }
    let id = String::from_str("_id");
    if keys[0].0 != id {
        return false;
    }
    match &keys[0].1 {
        Bson::Int32(v) => *v == 1,
        _ => false,
    }
}

/// The position of the first declared index named `name`.
pub fn find_index(indexes: &Vec<Index>, name: &String) -> (r: Option<usize>)
    ensures
        is_index_named(indexes@, name@, r),
{
    let mut i: usize = 0;
    while i < indexes.len()
        invariant
            i <= indexes@.len(),
            forall|j: int| 0 <= j < i ==> (#[trigger] indexes@[j]).name@ != name@,
        decreases indexes@.len() - i,
    {
        if indexes[i].name == *name {
            return Some(i);
        }
        i = i + 1;
    }
    None
}

/// Whether the declared index of model `m` is what the live index holds.
pub fn matches_live(m: &Model, d: &Index, l: &LiveIndex) -> (r: bool)
    requires
        l.name is Some,
    ensures
        r == live_matches(*m, *d, *l),
{
    let kind_ok = match l.unique {
        Some(true) => d.kind == IndexKind::Unique || d.kind == IndexKind::Primary,
        _ => d.kind == IndexKind::Index,
    };
    if !kind_ok {
        return false;
    }
    match &l.name {
        Some(n) => {
            if d.name != *n {
                return false;
            }
        },
        None => {
            return false;
        },
    }
    if d.items.len() != l.keys.len() {
        return false;
    }
    let mut i: usize = 0;
    while i < d.items.len()
        invariant
            i <= d.items@.len(),
            d.items@.len() == l.keys@.len(),
            forall|k: int|
                0 <= k < i ==> names_field(*m, (#[trigger] d.items@[k]).field@) && (forall|f: usize|
                    #[trigger] field_at(*m, d.items@[k].field@, f) ==> m.fields@[f as int].column_name@
                        == l.keys@[k].0@) && d.items@[k].sort == live_sort(l.keys@[k].1),
        decreases d.items@.len() - i,
    {
        let item = &d.items[i];
        let f = m.field(&item.field);
        proof {
            lemma_field_lookup(*m, item.field@, f);
        }
        let fi = match f {
            Some(fi) => fi,
            None => {
                return false;
            },
        };
        assert(field_at(*m, item.field@, fi));
        if m.fields[fi].column_name != l.keys[i].0 {
            return false;
        }
        let sort = match &l.keys[i].1 {
            Bson::Int32(v) => if *v == 1 {
                Sort::Asc
            } else {
                Sort::Desc
            },
            _ => Sort::Desc,
        };
        if item.sort != sort {
            return false;
        }
        i = i + 1;
    }
    true
}

/// Whether some live index other than `{_id: 1}` bears the name.
pub fn live_has_name_exec(live: &Vec<LiveIndex>, name: &String) -> (r: bool)
    ensures
        r == live_has_name(live@, name@),
{
    let mut i: usize = 0;
    while i < live.len()
        invariant
            i <= live@.len(),
            forall|k: int|
                0 <= k < i ==> !(!is_id_keys((#[trigger] live@[k]).keys@) && (live@[k].name matches Some(
                    n,
                ) && n@ == name@)),
        decreases live@.len() - i,
    {
        if !is_id_index(&live[i].keys) {
            match &live[i].name {
                Some(n) => {
                    if *n == *name {
                        return true;
                    }
                },
                None => {},
            }
        }
        i = i + 1;
    }
    false
}

/// Reconciles the declared indexes of a model with the live indexes of
/// its collection.
pub fn plan_migration(m: &Model, live: &Vec<LiveIndex>) -> (p: MigrationPlan)
    requires
        live_well_formed(*m, live@),
        single_keys_resolve(*m, live@),
    ensures
        is_migration_plan(*m, live@, p),
{
    let mut actions: Vec<LiveAction> = Vec::new();
    let mut i: usize = 0;
    while i < live.len()
        invariant
            i <= live@.len(),
            live_well_formed(*m, live@),
            actions@.len() == i,
            forall|k: int| 0 <= k < i ==> live_action(*m, #[trigger] live@[k], actions@[k]),
        decreases live@.len() - i,
    {
        let l = &live[i];
        if is_id_index(&l.keys) {
            actions.push(LiveAction::Implicit);
        } else {
            assert(!is_id_keys(live@[i as int].keys@));
            let name = l.name.as_ref().unwrap();
            let r = find_index(&m.indexes, name);
            if let Some(j) = r {
                assert(is_index_named(m.indexes@, live@[i as int].name->Some_0@, Some(j)));
            }
            let a = match r {
                None => LiveAction::Drop,
                Some(j) => if matches_live(m, &m.indexes[j], l) {
                    LiveAction::Keep
                } else {
                    LiveAction::Replace(j)
                },
            };
            proof {
                assert forall|q: Option<usize>| #[trigger]
                    is_index_named(m.indexes@, l.name->Some_0@, q) implies q == r by {
                    lemma_index_named_unique(m.indexes@, l.name->Some_0@, q, r);
                }
            }
            actions.push(a);
        }
        i = i + 1;
    }
    let mut create: Vec<bool> = Vec::new();
    let mut j: usize = 0;
    while j < m.indexes.len()
        invariant
            j <= m.indexes@.len(),
            single_keys_resolve(*m, live@),
            create@.len() == j,
            forall|k: int| 0 <= k < j ==> #[trigger] create@[k] == must_create(*m, live@, m.indexes@[k]),
        decreases m.indexes@.len() - j,
    {
        let d = &m.indexes[j];
        let reviewed = live_has_name_exec(live, &d.name);
        let implicit = if !reviewed && d.items.len() == 1 {
            assert(names_field(*m, m.indexes@[j as int].items@[0].field@));
            let f = m.field(&d.items[0].field);
            proof {
                lemma_field_lookup(*m, d.items@[0].field@, f);
            }
            match f {
                Some(fi) => {
                    let id = String::from_str("_id");
                    m.fields[fi].column_name == id
                },
                None => false,
            }
        } else {
            false
        };
        create.push(!reviewed && !implicit);
        j = j + 1;
    }
    MigrationPlan { live: actions, create }
}

/// The direction of a sort in an index key document.
pub open spec fn sort_direction(s: Sort) -> int {
    match s {
        Sort::Asc => 1,
        Sort::Desc => -1,
    }
}

/// `spec` is what to create for the declared index `d`: its name, unique
/// for unique and primary indexes, always sparse, and for each item the
/// column of its field with the item's direction.
pub open spec fn is_index_spec(m: Model, d: Index, spec: IndexSpec) -> bool {
    &&& spec.name@ == d.name@
    &&& spec.unique == (d.kind == IndexKind::Unique || d.kind == IndexKind::Primary)
    &&& spec.sparse
    &&& spec.keys@.len() == d.items@.len()
    &&& forall|k: int|
        0 <= k < d.items@.len() ==> (#[trigger] spec.keys@[k]).1 == sort_direction(d.items@[k].sort)
            && forall|f: usize|
            #[trigger] field_at(m, d.items@[k].field@, f) ==> spec.keys@[k].0
                == m.fields@[f as int].column_name
}

/// What to create on the server for the declared index `d` of model `m`.
pub fn index_spec(m: &Model, d: &Index) -> (spec: IndexSpec)
    requires
        items_name_fields(*m, *d),
    ensures
        is_index_spec(*m, *d, spec),
{
    let mut keys: Vec<(String, i32)> = Vec::new();
    let mut k: usize = 0;
    while k < d.items.len()
        invariant
            k <= d.items@.len(),
            forall|q: int| 0 <= q < d.items@.len() ==> names_field(*m, (#[trigger] d.items@[q]).field@),
            keys@.len() == k,
            forall|q: int|
                0 <= q < k ==> (#[trigger] keys@[q]).1 == sort_direction(d.items@[q].sort) && forall|
                    f: usize,
                | #[trigger] field_at(*m, d.items@[q].field@, f) ==> keys@[q].0
                    == m.fields@[f as int].column_name,
        decreases d.items@.len() - k,
    {
        let item = &d.items[k];
        assert(names_field(*m, d.items@[k as int].field@));
        let f = m.field(&item.field);
        proof {
            lemma_field_lookup(*m, item.field@, f);
        }
        let fi = f.unwrap();
        let direction: i32 = match item.sort {
            Sort::Asc => 1,
            Sort::Desc => -1,
        };
        keys.push((m.fields[fi].column_name.clone(), direction));
        k = k + 1;
    }
    IndexSpec {
        name: d.name.clone(),
        unique: d.kind == IndexKind::Unique || d.kind == IndexKind::Primary,
        sparse: true,
        keys,
    }
}

/// The live indexes agree with the declarations of model `m`: each live
/// index but `{_id: 1}` is named by a declaration equal to it, and each
/// declaration but the implicit `_id` one is live under its name.
pub open spec fn converged(m: Model, live: Seq<LiveIndex>) -> bool {
    &&& forall|i: int|
        0 <= i < live.len() && !is_id_keys((#[trigger] live[i]).keys@) ==> exists|j: usize|
            is_index_named(m.indexes@, live[i].name->Some_0@, Some(j)) && live_matches(
                m,
                #[trigger] m.indexes@[j as int],
                live[i],
            )
    &&& forall|j: int|
        0 <= j < m.indexes@.len() && !is_implicit_id(m, #[trigger] m.indexes@[j]) ==> live_has_name(
            live,
            m.indexes@[j].name@,
        )
}

/// Reconciling a collection whose indexes already agree with the
/// declarations changes nothing: no live index is dropped or replaced and
/// none is created. So a second migration after a converging one is a
/// no-op.
pub proof fn lemma_migration_idempotent(m: Model, live: Seq<LiveIndex>, p: MigrationPlan)
    requires
        converged(m, live),
        is_migration_plan(m, live, p),
    ensures
        forall|i: int|
            0 <= i < live.len() ==> #[trigger] p.live@[i] == LiveAction::Implicit || p.live@[i]
                == LiveAction::Keep,
        forall|j: int| 0 <= j < m.indexes@.len() ==> !#[trigger] p.create@[j],
{
    assert forall|i: int| 0 <= i < live.len() implies #[trigger] p.live@[i] == LiveAction::Implicit
        || p.live@[i] == LiveAction::Keep by {
        assert(live_action(m, live[i], p.live@[i]));
        if !is_id_keys(live[i].keys@) {
            let j = choose|j: usize|
                is_index_named(m.indexes@, live[i].name->Some_0@, Some(j)) && live_matches(
                    m,
                    #[trigger] m.indexes@[j as int],
                    live[i],
                );
            assert(is_index_named(m.indexes@, live[i].name->Some_0@, Some(j)));
        }
    }
    assert forall|j: int| 0 <= j < m.indexes@.len() implies !#[trigger] p.create@[j] by {
        assert(p.create@[j] == must_create(m, live, m.indexes@[j]));
    }
}

/// The live index `l` is how the server lists an index created from
/// `spec`: same name, unique exactly when asked, the same keys in order
/// with their directions as 32-bit integers.
pub open spec fn lists_spec(l: LiveIndex, spec: IndexSpec) -> bool {
    &&& l.name matches Some(n) && n@ == spec.name@
    &&& (l.unique == Some(true)) == spec.unique
    &&& l.keys@.len() == spec.keys@.len()
    &&& forall|k: int|
        0 <= k < l.keys@.len() ==> (#[trigger] l.keys@[k]).0 == spec.keys@[k].0 && l.keys@[k].1
            == Bson::Int32(spec.keys@[k].1)
}

/// An index created for a declaration is, as the server lists it, what
/// that declaration holds: so a migration leaves it alone the next time.
pub proof fn lemma_created_index_matches(m: Model, d: Index, spec: IndexSpec, l: LiveIndex)
    requires
        is_index_spec(m, d, spec),
        lists_spec(l, spec),
        items_name_fields(m, d),
    ensures
        live_matches(m, d, l),
{
    assert forall|k: int| 0 <= k < l.keys@.len() implies names_field(m, (#[trigger] d.items@[k]).field@)
        && (forall|f: usize|
        #[trigger] field_at(m, d.items@[k].field@, f) ==> m.fields@[f as int].column_name@
            == l.keys@[k].0@) && d.items@[k].sort == live_sort(l.keys@[k].1) by {
        assert(names_field(m, d.items@[k].field@));
        assert(spec.keys@[k].1 == sort_direction(d.items@[k].sort));
        assert(l.keys@[k].0 == spec.keys@[k].0);
    }
}

/// The action leaves the live index in place.
pub open spec fn stays(a: LiveAction) -> bool {
    a == LiveAction::Implicit || a == LiveAction::Keep
}

/// The plan creates the declared index at position `j`, afresh or in place
/// of a live index it drops.
pub open spec fn creates(p: MigrationPlan, j: int) -> bool {
    p.create@[j] || exists|i: int|
        0 <= i < p.live@.len() && #[trigger] p.live@[i] == LiveAction::Replace(j as usize)
}

/// `l` is how the server lists an index created for the declaration `d`.
pub open spec fn lists_declaration(m: Model, d: Index, l: LiveIndex) -> bool {
    exists|spec: IndexSpec| #[trigger] is_index_spec(m, d, spec) && lists_spec(l, spec)
}

/// `after` is what the collection holds once the plan `p` has been carried
/// out with every index call succeeding: the live indexes the plan leaves
/// in place, the listings of the indexes it creates, and nothing else.
pub open spec fn carried_out(m: Model, live: Seq<LiveIndex>, p: MigrationPlan, after: Seq<LiveIndex>) -> bool {
    &&& forall|i: int|
        0 <= i < live.len() && stays(#[trigger] p.live@[i]) ==> exists|k: int|
            0 <= k < after.len() && #[trigger] after[k] == live[i]
    &&& forall|j: int|
        0 <= j < m.indexes@.len() && creates(p, j) ==> exists|k: int|
            0 <= k < after.len() && lists_declaration(m, #[trigger] m.indexes@[j], #[trigger] after[k])
    &&& forall|k: int|
        #![trigger after[k]]
        0 <= k < after.len() ==> (exists|i: int|
            0 <= i < live.len() && stays(#[trigger] p.live@[i]) && after[k] == live[i]) || (exists|
            j: int,
        |
            0 <= j < m.indexes@.len() && creates(p, j) && lists_declaration(
                m,
                #[trigger] m.indexes@[j],
                after[k],
            ))
}

/// No two declared indexes share a name.
pub open spec fn index_names_distinct(m: Model) -> bool {
    forall|a: int, b: int|
        0 <= a < m.indexes@.len() && 0 <= b < m.indexes@.len() && a != b ==> (#[trigger] m.indexes@[a]).name@
            != (#[trigger] m.indexes@[b]).name@
}

/// Every item of every declared index names a field.
pub open spec fn all_items_name_fields(m: Model) -> bool {
    forall|j: int| 0 <= j < m.indexes@.len() ==> items_name_fields(m, #[trigger] m.indexes@[j])
}

proof fn lemma_index_named_exists(indexes: Seq<Index>, name: Seq<char>)
    requires
        indexes.len() <= usize::MAX,
    ensures
        exists|r: Option<usize>| is_index_named(indexes, name, r),
    decreases indexes.len(),
{
    if indexes.len() == 0 {
        assert(is_index_named(indexes, name, None));
    } else {
        let pre = indexes.drop_last();
        lemma_index_named_exists(pre, name);
        let r = choose|r: Option<usize>| is_index_named(pre, name, r);
        match r {
            Some(i) => {
                assert forall|j: int| 0 <= j < i implies (#[trigger] indexes[j]).name@ != name by {
                    assert(pre[j] == indexes[j]);
                }
                assert(is_index_named(indexes, name, Some(i)));
            },
            None => {
                if indexes.last().name@ == name {
                    assert forall|j: int| 0 <= j < indexes.len() - 1 implies (#[trigger] indexes[j]).name@
                        != name by {
                        assert(pre[j] == indexes[j]);
                    }
                    assert(is_index_named(indexes, name, Some((indexes.len() - 1) as usize)));
                } else {
                    assert forall|j: int| 0 <= j < indexes.len() implies (#[trigger] indexes[j]).name@
                        != name by {
                        if j < indexes.len() - 1 {
                            assert(pre[j] == indexes[j]);
                        }
                    }
                    assert(is_index_named(indexes, name, None));
                }
            },
        }
    }
}

proof fn lemma_listing_not_id(m: Model, d: Index, l: LiveIndex)
    requires
        !is_implicit_id(m, d),
        items_name_fields(m, d),
        lists_declaration(m, d, l),
    ensures
        !is_id_keys(l.keys@),
        l.name matches Some(n) && n@ == d.name@,
{
    let spec = choose|spec: IndexSpec| #[trigger] is_index_spec(m, d, spec) && lists_spec(l, spec);
    if d.items@.len() == 1 {
        let f = choose|f: usize| #[trigger] field_at(m, d.items@[0].field@, f) && m.fields@[f as int].column_name@ != "_id"@;
        assert(spec.keys@[0].0 == m.fields@[f as int].column_name);
        assert(l.keys@[0].0 == spec.keys@[0].0);
    }
}

/// Carrying out a reconciliation plan makes the collection agree with the
/// declarations, where declared names are distinct and every declared item
/// names a field: each live index but `{_id: 1}` is then named by an equal
/// declaration, and each declaration but the implicit `_id` one is live.
/// With `lemma_migration_idempotent`, a second migration changes nothing.
pub proof fn lemma_migration_converges(m: Model, live: Seq<LiveIndex>, p: MigrationPlan, after: Seq<LiveIndex>)
    requires
        m.indexes@.len() <= usize::MAX,
        is_migration_plan(m, live, p),
        carried_out(m, live, p, after),
        index_names_distinct(m),
        all_items_name_fields(m),
    ensures
        converged(m, after),
{
    assert forall|j: int| 0 <= j < m.indexes@.len() implies is_index_named(
        m.indexes@,
        (#[trigger] m.indexes@[j]).name@,
        Some(j as usize),
    ) by {
        assert forall|q: int| 0 <= q < j implies (#[trigger] m.indexes@[q]).name@ != m.indexes@[j].name@ by {
            assert(m.indexes@[q].name@ != m.indexes@[j].name@);
        }
    }
    assert forall|k: int| 0 <= k < after.len() && !is_id_keys((#[trigger] after[k]).keys@) implies exists|j: usize|
        is_index_named(m.indexes@, after[k].name->Some_0@, Some(j)) && live_matches(
            m,
            #[trigger] m.indexes@[j as int],
            after[k],
        ) by {
        if exists|i: int| 0 <= i < live.len() && stays(#[trigger] p.live@[i]) && after[k] == live[i] {
            let i = choose|i: int| 0 <= i < live.len() && stays(#[trigger] p.live@[i]) && after[k] == live[i];
            assert(live_action(m, live[i], p.live@[i]));
            lemma_index_named_exists(m.indexes@, live[i].name->Some_0@);
            let r = choose|r: Option<usize>| is_index_named(m.indexes@, live[i].name->Some_0@, r);
            let j = r->Some_0;
            assert(is_index_named(m.indexes@, after[k].name->Some_0@, Some(j)));
        } else {
            let j = choose|j: int|
                0 <= j < m.indexes@.len() && creates(p, j) && lists_declaration(
                    m,
                    #[trigger] m.indexes@[j],
                    after[k],
                );
            let spec = choose|spec: IndexSpec| #[trigger] is_index_spec(m, m.indexes@[j], spec) && lists_spec(after[k], spec);
            assert(items_name_fields(m, m.indexes@[j]));
            lemma_created_index_matches(m, m.indexes@[j], spec, after[k]);
            assert(is_index_named(m.indexes@, m.indexes@[j].name@, Some(j as usize)));
            assert(is_index_named(m.indexes@, after[k].name->Some_0@, Some(j as usize)));
        }
    }
    assert forall|j: int|
        0 <= j < m.indexes@.len() && !is_implicit_id(m, #[trigger] m.indexes@[j]) implies live_has_name(
        after,
        m.indexes@[j].name@,
    ) by {
        let d = m.indexes@[j];
        assert(items_name_fields(m, d));
        assert(is_index_named(m.indexes@, d.name@, Some(j as usize)));
        if live_has_name(live, d.name@) {
            let i = choose|i: int|
                0 <= i < live.len() && !is_id_keys((#[trigger] live[i]).keys@) && (live[i].name matches Some(
                    n,
                ) && n@ == d.name@);
            assert(live_action(m, live[i], p.live@[i]));
            assert(is_index_named(m.indexes@, live[i].name->Some_0@, Some(j as usize)));
            if p.live@[i] == LiveAction::Keep {
                assert(stays(p.live@[i]));
                let k = choose|k: int| 0 <= k < after.len() && #[trigger] after[k] == live[i];
                assert(!is_id_keys(after[k].keys@));
            } else {
                assert(p.live@[i] == LiveAction::Replace(j as usize));
                assert(creates(p, j));
                let k = choose|k: int| 0 <= k < after.len() && lists_declaration(m, #[trigger] m.indexes@[j], #[trigger] after[k]);
                lemma_listing_not_id(m, d, after[k]);
            }
        } else {
            assert(p.create@[j] == must_create(m, live, d));
            assert(creates(p, j));
            let k = choose|k: int| 0 <= k < after.len() && lists_declaration(m, #[trigger] m.indexes@[j], #[trigger] after[k]);
            lemma_listing_not_id(m, d, after[k]);
        }
    }
}

/// Whether every live index but `{_id: 1}` is named, and one that a
/// declaration names has integer directions.
pub fn check_live(m: &Model, live: &Vec<LiveIndex>) -> (r: bool)
    ensures
        r == live_well_formed(*m, live@),
{
    let mut i: usize = 0;
    while i < live.len()
        invariant
            i <= live@.len(),
            forall|k: int|
                0 <= k < i && !is_id_keys((#[trigger] live@[k]).keys@) ==> live@[k].name is Some
                    && forall|j: usize|
                    #[trigger] is_index_named(m.indexes@, live@[k].name->Some_0@, Some(j))
                        ==> has_int_directions(live@[k]),
        decreases live@.len() - i,
    {
        let l = &live[i];
        if !is_id_index(&l.keys) {
            let name = match &l.name {
                Some(n) => n,
                None => {
                    return false;
                },
            };
            let r = find_index(&m.indexes, name);
            proof {
                assert forall|q: Option<usize>| #[trigger]
                    is_index_named(m.indexes@, name@, q) implies q == r by {
                    lemma_index_named_unique(m.indexes@, name@, q, r);
                }
            }
            if let Some(j) = r {
                assert(is_index_named(m.indexes@, name@, Some(j)));
                let mut k: usize = 0;
                while k < l.keys.len()
                    invariant
                        k <= l.keys@.len(),
                        i < live@.len(),
                        *l == live@[i as int],
                        !is_id_keys(l.keys@),
                        l.name == Some(*name),
                        is_index_named(m.indexes@, name@, Some(j)),
                        forall|q: int| 0 <= q < k ==> (#[trigger] l.keys@[q]).1 is Int32,
                    decreases l.keys@.len() - k,
                {
                    match &l.keys[k].1 {
                        Bson::Int32(_) => {},
                        _ => {
                            assert(!has_int_directions(live@[i as int]));
                            assert(is_index_named(m.indexes@, live@[i as int].name->Some_0@, Some(j)));
                            return false;
                        },
                    }
                    k = k + 1;
                }
            }
        }
        i = i + 1;
    }
    true
}

/// Whether every item of the declared index names a field.
pub fn check_items(m: &Model, d: &Index) -> (r: bool)
    ensures
        r == items_name_fields(*m, *d),
{
    let mut k: usize = 0;
    while k < d.items.len()
        invariant
            k <= d.items@.len(),
            forall|q: int| 0 <= q < k ==> names_field(*m, (#[trigger] d.items@[q]).field@),
        decreases d.items@.len() - k,
    {
        let f = m.field(&d.items[k].field);
        proof {
            lemma_field_lookup(*m, d.items@[k as int].field@, f);
        }
        if f.is_none() {
            return false;
        }
        k = k + 1;
    }
    true
}

/// Whether each declared single-key index that no live index is named
/// after names a field.
pub fn check_single_keys(m: &Model, live: &Vec<LiveIndex>) -> (r: bool)
    ensures
        r == single_keys_resolve(*m, live@),
{
    let mut j: usize = 0;
    while j < m.indexes.len()
        invariant
            j <= m.indexes@.len(),
            forall|q: int|
                0 <= q < j && !live_has_name(live@, (#[trigger] m.indexes@[q]).name@)
                    && m.indexes@[q].items@.len() == 1 ==> names_field(*m, m.indexes@[q].items@[0].field@),
        decreases m.indexes@.len() - j,
    {
        let d = &m.indexes[j];
        if !live_has_name_exec(live, &d.name) && d.items.len() == 1 {
            let f = m.field(&d.items[0].field);
            proof {
                lemma_field_lookup(*m, d.items@[0].field@, f);
            }
            if f.is_none() {
                return false;
            }
        }
        j = j + 1;
    }
    true
}

} // verus!
