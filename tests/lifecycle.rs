use teo_mongodb_connector::materialize::{document_to_object, read_first, read_rows, ObjectData, Slot};
use teo_mongodb_connector::model::{Field, Model, Relation};
use teo_mongodb_connector::error::{DbError, KeyPath, PathItem};
use teo_mongodb_connector::state::TransactionState;
use teo_mongodb_connector::value::{Bson, FieldType, Value};

fn s(x: &str) -> String {
    x.to_string()
}

#[test]
fn downgrade_without_transactions() {
    let t = TransactionState::for_connection(false);
    assert!(!t.is_transaction());
    assert!(!t.uses_session());
    assert!(!t.forwards_to_driver());
    let n = TransactionState::no_transaction();
    assert_eq!(n, t);
}

#[test]
fn commit_is_write_once() {
    let mut t = TransactionState::for_connection(true);
    assert!(t.is_transaction());
    assert!(t.uses_session());
    t.record_commit(false);
    assert!(!t.is_committed());
    t.record_commit(true);
    assert!(t.is_committed());
    assert!(!t.uses_session());
    t.record_commit(false);
    assert!(t.is_committed());
    assert_eq!(t.spawn(), t);
}

fn models() -> Vec<Model> {
    vec![
        Model {
            name: s("Author"),
            table_name: s("authors"),
            fields: vec![Field { name: s("name"), column_name: s("n"), field_type: FieldType::String, optional: false }],
            properties: vec![],
            relations: vec![Relation { name: s("posts"), model: 1, is_vec: true }],
            indexes: vec![],
            auto_keys: vec![],
        },
        Model {
            name: s("Post"),
            table_name: s("posts"),
            fields: vec![Field { name: s("title"), column_name: s("title"), field_type: FieldType::String, optional: false }],
            properties: vec![],
            relations: vec![],
            indexes: vec![],
            auto_keys: vec![],
        },
    ]
}

#[test]
fn materializes_relations() {
    let doc = vec![
        (s("n"), Bson::String(s("Ann"))),
        (s("stray"), Bson::Int32(1)),
        (
            s("posts"),
            Bson::Array(vec![Bson::Document(vec![(s("title"), Bson::String(s("Hi")))])]),
        ),
    ];
    let select = Value::Dictionary(vec![(s("name"), Value::Bool(true))]);
    let finder_of_posts = Value::Dictionary(vec![(
        s("posts"),
        Value::Dictionary(vec![(s("select"), Value::Dictionary(vec![(s("title"), Value::Bool(true))]))]),
    )]);
    assert_eq!(
        document_to_object(&models(), 0, &doc, Some(&select), Some(&finder_of_posts)),
        Ok(ObjectData {
            slots: vec![
                Slot::Field(s("name"), Value::String(s("Ann"))),
                Slot::Skipped,
                Slot::Related(
                    s("posts"),
                    true,
                    vec![ObjectData {
                        slots: vec![Slot::Field(s("title"), Value::String(s("Hi")))],
                        select: Some(Value::Dictionary(vec![(s("title"), Value::Bool(true))])),
                        initialized: true,
                        is_new: false,
                    }],
                ),
            ],
            select: Some(Value::Dictionary(vec![(s("name"), Value::Bool(true))])),
            initialized: true,
            is_new: false,
        })
    );
}

#[test]
fn relation_must_hold_documents() {
    let doc = vec![(s("posts"), Bson::Int32(3))];
    assert_eq!(
        document_to_object(&models(), 0, &doc, None, None),
        Err(DbError::RecordDecodingError {
            model: s("Author"),
            path: KeyPath { items: vec![PathItem::Key(s("posts"))] },
            expected: s("array"),
        })
    );
    let doc = vec![(s("posts"), Bson::Array(vec![Bson::Null]))];
    assert_eq!(
        document_to_object(&models(), 0, &doc, None, None),
        Err(DbError::RecordDecodingError {
            model: s("Author"),
            path: KeyPath { items: vec![PathItem::Key(s("posts")), PathItem::Index(0)] },
            expected: s("document"),
        })
    );
    let doc = vec![(s("posts"), Bson::Array(vec![Bson::Document(vec![(s("title"), Bson::Int32(1))])]))];
    assert_eq!(
        document_to_object(&models(), 0, &doc, None, None),
        Err(DbError::RecordDecodingError {
            model: s("Post"),
            path: KeyPath { items: vec![PathItem::Key(s("title"))] },
            expected: s("string"),
        })
    );
}

#[test]
fn rows_report_the_first_failing_row() {
    let good = || vec![(s("title"), Bson::String(s("a")))];
    let bad = || vec![(s("title"), Bson::Int32(2))];
    let rows = vec![good(), bad(), bad()];
    match read_rows(&models(), 1, &rows, None, None) {
        Err((i, DbError::RecordDecodingError { expected, .. })) => {
            assert_eq!(i, 1);
            assert_eq!(expected, "string");
        }
        other => panic!("unexpected {:?}", other),
    }
    let ok = read_rows(&models(), 1, &vec![good()], None, None).unwrap();
    assert_eq!(ok.len(), 1);
    assert_eq!(read_first(&models(), 1, &vec![], None, None), Ok(None));
    let first = read_first(&models(), 1, &vec![good()], None, None).unwrap().unwrap();
    assert_eq!(first.slots, vec![Slot::Field(s("title"), Value::String(s("a")))]);
}
