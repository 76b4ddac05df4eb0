use teo_mongodb_connector::codec::encode;
use teo_mongodb_connector::error::{DbError, KeyPath, PathItem};
use teo_mongodb_connector::model::{Field, Model, Property};
use teo_mongodb_connector::value::{Bson, FieldType, Value};
use teo_mongodb_connector::write::{
    create_document, identifier_document, insert_encodings, refresh_atomic_fields, route_updates,
    update_document, Bucket, SaveEntry, Updator,
};

fn s(x: &str) -> String {
    x.to_string()
}

fn counter_model() -> Model {
    Model {
        name: s("Counter"),
        table_name: s("counters"),
        fields: vec![
            Field { name: s("id"), column_name: s("_id"), field_type: FieldType::Int, optional: false },
            Field { name: s("counter"), column_name: s("counter"), field_type: FieldType::Int, optional: false },
            Field { name: s("note"), column_name: s("n"), field_type: FieldType::String, optional: true },
        ],
        properties: vec![Property { name: s("label"), field_type: FieldType::String }],
        relations: vec![],
        indexes: vec![],
        auto_keys: vec![],
    }
}

fn plain(key: &str, value: Value) -> SaveEntry {
    SaveEntry { key: s(key), value, updator: None }
}

fn atomic(key: &str, value: Value, u: Updator) -> SaveEntry {
    SaveEntry { key: s(key), value, updator: Some(u) }
}

#[test]
fn null_elision() {
    let m = counter_model();
    let entries = vec![
        plain("counter", Value::I32(3)),
        plain("note", Value::Null),
        plain("label", Value::String(s("x"))),
        plain("unknown", Value::I32(1)),
    ];
    let encs = insert_encodings(&m, entries).unwrap();
    assert_eq!(encs.len(), 4);
    assert_eq!(encs[1], Some((s("n"), Bson::Null)));
    assert_eq!(encs[3], None);
    let doc = create_document(encs);
    assert_eq!(doc, vec![(s("counter"), Bson::Int32(3)), (s("label"), Bson::String(s("x")))]);
}

#[test]
fn insert_of_decimal_fails() {
    let m = counter_model();
    let r = insert_encodings(&m, vec![plain("label", Value::Decimal(s("1")))]);
    assert_eq!(r, Err(DbError::Runtime { message: s("Decimal is not implemented by MongoDB.") }));
}

#[test]
fn atomic_update() {
    let m = counter_model();
    let routed = route_updates(&m, vec![atomic("counter", Value::I32(10), Updator::Increment(Value::I32(5)))]).unwrap();
    let (doc, return_new) = update_document(routed);
    assert_eq!(doc, vec![(s("$inc"), Bson::Document(vec![(s("counter"), Bson::Int32(5))]))]);
    assert!(return_new);

    let returned = vec![(s("_id"), Bson::Int32(1)), (s("counter"), Bson::Int32(15))];
    let fresh = refresh_atomic_fields(&m, &returned, &vec![s("counter")]).unwrap();
    assert_eq!(fresh, vec![(s("counter"), Value::I32(15))]);

    let half = 0.5f64.to_bits();
    let routed = route_updates(&m, vec![atomic("counter", Value::I32(15), Updator::Divide(half))]).unwrap();
    let (doc, return_new) = update_document(routed);
    assert_eq!(doc, vec![(s("$mul"), Bson::Document(vec![(s("counter"), Bson::Double(half))]))]);
    assert!(return_new);
}

#[test]
fn divide_takes_absolute_reciprocal() {
    let m = counter_model();
    let minus_half = (-0.5f64).to_bits();
    let routed = route_updates(&m, vec![atomic("counter", Value::I32(1), Updator::Divide(minus_half))]).unwrap();
    assert_eq!(routed, vec![Some((Bucket::Mul, s("counter"), Bson::Double(0.5f64.to_bits())))]);
}

#[test]
fn decrement_negates() {
    let m = counter_model();
    let routed = route_updates(
        &m,
        vec![
            atomic("counter", Value::I32(1), Updator::Decrement(Value::I32(4))),
            atomic("note", Value::Null, Updator::Decrement(Value::F64(2.0f64.to_bits()))),
        ],
    )
    .unwrap();
    assert_eq!(
        routed,
        vec![
            Some((Bucket::Inc, s("counter"), Bson::Int32(-4))),
            Some((Bucket::Inc, s("n"), Bson::Double((-2.0f64).to_bits()))),
        ]
    );
}

#[test]
fn update_routing_buckets() {
    let m = counter_model();
    let routed = route_updates(
        &m,
        vec![
            plain("counter", Value::I32(2)),
            plain("note", Value::Null),
            atomic("id", Value::I32(1), Updator::Multiply(Value::I32(3))),
            atomic("counter", Value::I32(1), Updator::Push(Value::String(s("p")))),
            plain("label", Value::Null),
            plain("ghost", Value::I32(1)),
        ],
    )
    .unwrap();
    assert_eq!(routed[5], None);
    let (doc, return_new) = update_document(routed);
    assert_eq!(
        doc,
        vec![
            (s("$set"), Bson::Document(vec![(s("counter"), Bson::Int32(2))])),
            (s("$unset"), Bson::Document(vec![(s("note"), Bson::Null), (s("label"), Bson::Null)])),
            (s("$mul"), Bson::Document(vec![(s("_id"), Bson::Int32(3))])),
            (s("$push"), Bson::Document(vec![(s("counter"), Bson::String(s("p")))])),
        ]
    );
    assert!(return_new);
}

#[test]
fn plain_update_needs_no_read_back() {
    let m = counter_model();
    let routed = route_updates(&m, vec![plain("counter", Value::I32(2))]).unwrap();
    let (doc, return_new) = update_document(routed);
    assert_eq!(doc.len(), 1);
    assert!(!return_new);
}

#[test]
fn empty_update_is_empty() {
    let m = counter_model();
    let routed = route_updates(&m, vec![]).unwrap();
    let (doc, return_new) = update_document(routed);
    assert!(doc.is_empty());
    assert!(!return_new);
}

#[test]
fn read_back_reports_decoding_errors() {
    let m = counter_model();
    let returned = vec![(s("counter"), Bson::String(s("15")))];
    let r = refresh_atomic_fields(&m, &returned, &vec![s("counter")]);
    assert_eq!(
        r,
        Err(DbError::RecordDecodingError {
            model: s("Counter"),
            path: KeyPath { items: vec![PathItem::Key(s("counter"))] },
            expected: s("int 32"),
        })
    );
}

#[test]
fn identifier_selector() {
    let id = Value::Dictionary(vec![(s("_id"), Value::I32(4))]);
    assert_eq!(identifier_document(&id), Ok(vec![(s("_id"), Bson::Int32(4))]));
    assert_eq!(encode(&FieldType::String, Value::String(s("q"))), Ok(Bson::String(s("q"))));
}

#[test]
fn update_fails_only_on_a_failing_encoding() {
    let m = counter_model();
    let routed = route_updates(
        &m,
        vec![atomic("counter", Value::Decimal(s("1")), Updator::Increment(Value::I32(1)))],
    );
    assert!(routed.is_ok());
    let r = route_updates(&m, vec![plain("label", Value::Decimal(s("1")))]);
    assert_eq!(r, Err(DbError::Runtime { message: s("Decimal is not implemented by MongoDB.") }));
}

#[test]
fn decrement_on_unknown_key_is_ignored() {
    let m = counter_model();
    let routed = route_updates(
        &m,
        vec![atomic("ghost", Value::Null, Updator::Decrement(Value::String(s("x"))))],
    )
    .unwrap();
    assert_eq!(routed, vec![None]);
    let (doc, return_new) = update_document(routed);
    assert!(doc.is_empty());
    assert!(!return_new);
}
