use teo_mongodb_connector::migrate::{
    check_items, check_live, check_single_keys, from_index_model, index_spec, plan_migration,
    FromIndexModel, IndexSpec, LiveAction, LiveIndex,
};
use teo_mongodb_connector::model::{Field, Index, IndexItem, IndexKind, Model, Sort};
use teo_mongodb_connector::value::{Bson, FieldType};

fn s(x: &str) -> String {
    x.to_string()
}

fn model(indexes: Vec<Index>) -> Model {
    Model {
        name: s("User"),
        table_name: s("users"),
        fields: vec![
            Field { name: s("id"), column_name: s("_id"), field_type: FieldType::ObjectId, optional: false },
            Field { name: s("email"), column_name: s("email"), field_type: FieldType::String, optional: false },
            Field { name: s("age"), column_name: s("years"), field_type: FieldType::Int, optional: true },
        ],
        properties: vec![],
        relations: vec![],
        indexes,
        auto_keys: vec![],
    }
}

fn by_email(sort: Sort) -> Index {
    Index { kind: IndexKind::Unique, name: s("byEmail"), items: vec![IndexItem { field: s("email"), sort }] }
}

fn id_live() -> LiveIndex {
    LiveIndex { keys: vec![(s("_id"), Bson::Int32(1))], name: Some(s("_id_")), unique: None }
}

#[test]
fn migration_diff() {
    let m = model(vec![by_email(Sort::Asc)]);
    let live = vec![
        id_live(),
        LiveIndex { keys: vec![(s("email"), Bson::Int32(-1))], name: Some(s("byEmail")), unique: Some(true) },
    ];
    let plan = plan_migration(&m, &live);
    assert_eq!(plan.live, vec![LiveAction::Implicit, LiveAction::Replace(0)]);
    assert_eq!(plan.create, vec![false]);
    let spec = index_spec(&m, &m.indexes[0]);
    assert_eq!(
        spec,
        IndexSpec { name: s("byEmail"), unique: true, sparse: true, keys: vec![(s("email"), 1)] }
    );
}

#[test]
fn converged_collection_plans_nothing() {
    let m = model(vec![by_email(Sort::Asc)]);
    let live = vec![
        id_live(),
        LiveIndex { keys: vec![(s("email"), Bson::Int32(1))], name: Some(s("byEmail")), unique: Some(true) },
    ];
    let plan = plan_migration(&m, &live);
    assert_eq!(plan.live, vec![LiveAction::Implicit, LiveAction::Keep]);
    assert_eq!(plan.create, vec![false]);
}

#[test]
fn undeclared_index_is_dropped_and_missing_created() {
    let age = Index {
        kind: IndexKind::Index,
        name: s("byAge"),
        items: vec![IndexItem { field: s("age"), sort: Sort::Desc }],
    };
    let m = model(vec![by_email(Sort::Asc), age]);
    let live = vec![
        LiveIndex { keys: vec![(s("email"), Bson::Int32(1))], name: Some(s("legacy")), unique: None },
    ];
    let plan = plan_migration(&m, &live);
    assert_eq!(plan.live, vec![LiveAction::Drop]);
    assert_eq!(plan.create, vec![true, true]);
    let spec = index_spec(&m, &m.indexes[1]);
    assert_eq!(spec, IndexSpec { name: s("byAge"), unique: false, sparse: true, keys: vec![(s("years"), -1)] });
}

#[test]
fn primary_on_id_is_never_created() {
    let primary = Index {
        kind: IndexKind::Primary,
        name: s("pk"),
        items: vec![IndexItem { field: s("id"), sort: Sort::Asc }],
    };
    let m = model(vec![primary]);
    let plan = plan_migration(&m, &vec![id_live()]);
    assert_eq!(plan.create, vec![false]);
    let spec = index_spec(&m, &m.indexes[0]);
    assert!(spec.unique);
}

#[test]
fn live_index_reads_as_declaration() {
    let live = LiveIndex {
        keys: vec![(s("a"), Bson::Int32(1)), (s("b"), Bson::Int32(-1))],
        name: Some(s("ab")),
        unique: None,
    };
    let d = from_index_model(&live);
    assert_eq!(
        d,
        Index {
            kind: IndexKind::Index,
            name: s("ab"),
            items: vec![
                IndexItem { field: s("a"), sort: Sort::Asc },
                IndexItem { field: s("b"), sort: Sort::Desc },
            ],
        }
    );
    let again = <Index as FromIndexModel>::from_index_model(&live);
    assert!(again.same_as(&d));
    assert!(!again.same_as(&by_email(Sort::Asc)));
}

#[test]
fn undeclared_text_index_needs_no_integer_directions() {
    let m = model(vec![by_email(Sort::Asc)]);
    let live = vec![
        LiveIndex { keys: vec![(s("bio"), Bson::String(s("text")))], name: Some(s("bio_text")), unique: None },
    ];
    assert!(check_live(&m, &live));
    assert!(check_single_keys(&m, &live));
    let plan = plan_migration(&m, &live);
    assert_eq!(plan.live, vec![LiveAction::Drop]);
    let clashing = vec![
        LiveIndex { keys: vec![(s("email"), Bson::String(s("text")))], name: Some(s("byEmail")), unique: None },
    ];
    assert!(!check_live(&m, &clashing));
    let unknown = Index {
        kind: IndexKind::Index,
        name: s("byNothing"),
        items: vec![IndexItem { field: s("nothing"), sort: Sort::Asc }],
    };
    assert!(!check_items(&m, &unknown));
    assert!(check_items(&m, &m.indexes[0]));
}

#[test]
fn migrated_primary_and_renamed_columns_are_kept() {
    let pk = Index {
        kind: IndexKind::Primary,
        name: s("pk"),
        items: vec![IndexItem { field: s("email"), sort: Sort::Asc }],
    };
    let by_age = Index {
        kind: IndexKind::Index,
        name: s("byAge"),
        items: vec![IndexItem { field: s("age"), sort: Sort::Desc }],
    };
    let m = model(vec![pk, by_age]);
    let live = vec![
        LiveIndex { keys: vec![(s("email"), Bson::Int32(1))], name: Some(s("pk")), unique: Some(true) },
        LiveIndex { keys: vec![(s("years"), Bson::Int32(-1))], name: Some(s("byAge")), unique: None },
    ];
    let plan = plan_migration(&m, &live);
    assert_eq!(plan.live, vec![LiveAction::Keep, LiveAction::Keep]);
    assert_eq!(plan.create, vec![false, false]);
}
