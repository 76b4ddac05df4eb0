use teo_mongodb_connector::codec::{
    decode, encode, value_to_bson, MAX_MILLIS, MIN_DAY, MIN_MILLIS,
};
use teo_mongodb_connector::error::{DbError, KeyPath, PathItem};
use teo_mongodb_connector::materialize::{document_to_object, ObjectData, Slot};
use teo_mongodb_connector::model::{Field, Model};
use teo_mongodb_connector::value::{Bson, FieldType, Value};
use teo_mongodb_connector::write::{assign_inserted_id, create_document, insert_encodings, SaveEntry};

fn s(x: &str) -> String {
    x.to_string()
}

fn field(name: &str, column: &str, t: FieldType, optional: bool) -> Field {
    Field { name: s(name), column_name: s(column), field_type: t, optional }
}

fn user_model() -> Model {
    Model {
        name: s("User"),
        table_name: s("users"),
        fields: vec![
            field("id", "_id", FieldType::ObjectId, false),
            field("name", "name", FieldType::String, false),
            field("age", "age", FieldType::Int, false),
        ],
        properties: vec![],
        relations: vec![],
        indexes: vec![],
        auto_keys: vec![s("id")],
    }
}

fn entry(key: &str, value: Value) -> SaveEntry {
    SaveEntry { key: s(key), value, updator: None }
}

fn decode_plain(t: &FieldType, optional: bool, b: &Bson) -> Result<Value, DbError> {
    decode(&s("User"), t, optional, b, &KeyPath::new())
}

#[test]
fn roundtrip_scalars() {
    let m = user_model();
    let entries = vec![
        entry("id", Value::Null),
        entry("name", Value::String(s("Ada"))),
        entry("age", Value::I32(37)),
    ];
    let encs = insert_encodings(&m, entries).unwrap();
    let doc = create_document(encs);
    assert_eq!(doc, vec![(s("name"), Bson::String(s("Ada"))), (s("age"), Bson::Int32(37))]);

    let oid = [7u8; 12];
    let assigned = assign_inserted_id(&m, &Bson::ObjectId(oid)).unwrap();
    assert_eq!(assigned, vec![Some((s("id"), Value::ObjectId(oid)))]);

    let mut stored = vec![(s("_id"), Bson::ObjectId(oid))];
    stored.extend(doc);
    let obj = document_to_object(&vec![user_model()], 0, &stored, None, None).unwrap();
    assert_eq!(
        obj,
        ObjectData {
            slots: vec![
                Slot::Field(s("id"), Value::ObjectId(oid)),
                Slot::Field(s("name"), Value::String(s("Ada"))),
                Slot::Field(s("age"), Value::I32(37)),
            ],
            select: None,
            initialized: true,
            is_new: false,
        }
    );
}

#[test]
fn decoding_mismatch() {
    let stored = vec![(s("age"), Bson::String(s("not-a-number")))];
    let r = document_to_object(&vec![user_model()], 0, &stored, None, None);
    assert_eq!(
        r,
        Err(DbError::RecordDecodingError {
            model: s("User"),
            path: KeyPath { items: vec![PathItem::Key(s("age"))] },
            expected: s("int 32"),
        })
    );
}

#[test]
fn decode_never_coerces_tags() {
    let r = decode_plain(&FieldType::Int64, false, &Bson::Int32(3));
    assert!(matches!(r, Err(DbError::RecordDecodingError { ref expected, .. }) if expected == "int 64"));
    let r = decode_plain(&FieldType::Float, false, &Bson::Int32(3));
    assert!(matches!(r, Err(DbError::RecordDecodingError { ref expected, .. }) if expected == "double"));
    let r = decode_plain(&FieldType::Bool, false, &Bson::Null);
    assert!(matches!(r, Err(DbError::RecordDecodingError { ref expected, .. }) if expected == "bool"));
}

#[test]
fn decode_null_where_optional() {
    assert_eq!(decode_plain(&FieldType::Int, true, &Bson::Null), Ok(Value::Null));
    assert_eq!(decode_plain(&FieldType::Decimal, true, &Bson::Null), Ok(Value::Null));
}

#[test]
fn decode_decimal_is_rejected() {
    let r = decode_plain(&FieldType::Decimal, false, &Bson::Double(0));
    assert_eq!(r, Err(DbError::Runtime { message: s("Decimal is not implemented by MongoDB.") }));
}

#[test]
fn encode_decimal_is_rejected() {
    let r = value_to_bson(&Value::Array(vec![Value::I32(1), Value::Decimal(s("1.5"))]));
    assert_eq!(r, Err(DbError::Runtime { message: s("Decimal is not implemented by MongoDB.") }));
    let r = encode(&FieldType::String, Value::Decimal(s("2")));
    assert!(r.is_err());
    let r = encode(&FieldType::Decimal, Value::I32(1));
    assert_eq!(r, Err(DbError::Runtime { message: s("Decimal is not implemented by MongoDB.") }));
}

#[test]
fn encode_int_fields_keep_only_their_width() {
    assert_eq!(encode(&FieldType::Int, Value::I64(5)), Ok(Bson::Null));
    assert_eq!(encode(&FieldType::Int, Value::I32(5)), Ok(Bson::Int32(5)));
    assert_eq!(encode(&FieldType::Int64, Value::I32(5)), Ok(Bson::Null));
    assert_eq!(encode(&FieldType::Int64, Value::I64(-9)), Ok(Bson::Int64(-9)));
}

#[test]
fn canonical_mapping() {
    let half = 0.5f64.to_bits();
    let quarter = (0.25f32 as f64).to_bits();
    let v = Value::Dictionary(vec![
        (s("b"), Value::Bool(true)),
        (s("f"), Value::F64(half)),
        (s("g"), Value::F32(quarter)),
        (s("d"), Value::Date(2)),
        (s("t"), Value::DateTime(-5)),
        (s("e"), Value::EnumVariant(s("red"))),
        (s("a"), Value::Array(vec![Value::I64(1), Value::Null])),
    ]);
    assert_eq!(
        value_to_bson(&v),
        Ok(Bson::Document(vec![
            (s("b"), Bson::Boolean(true)),
            (s("f"), Bson::Double(half)),
            (s("g"), Bson::Double(quarter)),
            (s("d"), Bson::DateTime(172_800_000)),
            (s("t"), Bson::DateTime(-5)),
            (s("e"), Bson::String(s("red"))),
            (s("a"), Bson::Array(vec![Bson::Int64(1), Bson::Null])),
        ]))
    );
}

#[test]
fn decode_dates_by_utc_day() {
    assert_eq!(decode_plain(&FieldType::Date, false, &Bson::DateTime(86_400_000)), Ok(Value::Date(1)));
    assert_eq!(decode_plain(&FieldType::Date, false, &Bson::DateTime(86_399_999)), Ok(Value::Date(0)));
    assert_eq!(decode_plain(&FieldType::Date, false, &Bson::DateTime(-1)), Ok(Value::Date(-1)));
    assert_eq!(decode_plain(&FieldType::Date, false, &Bson::DateTime(i64::MIN)), Ok(Value::Date(MIN_DAY)));
}

#[test]
fn decode_datetimes_saturate() {
    assert_eq!(decode_plain(&FieldType::DateTime, false, &Bson::DateTime(42)), Ok(Value::DateTime(42)));
    assert_eq!(
        decode_plain(&FieldType::DateTime, false, &Bson::DateTime(i64::MAX)),
        Ok(Value::DateTime(MAX_MILLIS))
    );
    assert_eq!(
        decode_plain(&FieldType::DateTime, false, &Bson::DateTime(i64::MIN)),
        Ok(Value::DateTime(MIN_MILLIS))
    );
}

#[test]
fn decode_float32_keeps_double() {
    let bits = 1.5f64.to_bits();
    assert_eq!(decode_plain(&FieldType::Float32, false, &Bson::Double(bits)), Ok(Value::F32(bits)));
}

#[test]
fn decode_enum_members() {
    let t = FieldType::EnumVariant { path: vec![s("std"), s("Color")], members: vec![s("red"), s("blue")] };
    assert_eq!(decode_plain(&t, false, &Bson::String(s("blue"))), Ok(Value::EnumVariant(s("blue"))));
    assert_eq!(
        decode_plain(&t, false, &Bson::String(s("green"))),
        Err(DbError::RecordDecodingError {
            model: s("User"),
            path: KeyPath::new(),
            expected: s("std.Color"),
        })
    );
    assert!(matches!(
        decode_plain(&t, false, &Bson::Int32(1)),
        Err(DbError::RecordDecodingError { ref expected, .. }) if expected == "string"
    ));
}

#[test]
fn decode_array_locates_failing_element() {
    let t = FieldType::Array { inner: Box::new(FieldType::Int), optional: true };
    assert_eq!(
        decode_plain(&t, false, &Bson::Array(vec![Bson::Int32(1), Bson::Null])),
        Ok(Value::Array(vec![Value::I32(1), Value::Null]))
    );
    assert_eq!(
        decode_plain(&t, false, &Bson::Array(vec![Bson::Int32(1), Bson::String(s("x"))])),
        Err(DbError::RecordDecodingError {
            model: s("User"),
            path: KeyPath { items: vec![PathItem::Index(1)] },
            expected: s("int 32"),
        })
    );
    assert!(matches!(
        decode_plain(&t, false, &Bson::Int32(1)),
        Err(DbError::RecordDecodingError { ref expected, .. }) if expected == "array"
    ));
}

#[test]
fn decode_dictionary_keeps_order() {
    let t = FieldType::Dictionary { inner: Box::new(FieldType::String), optional: false };
    let b = Bson::Document(vec![(s("z"), Bson::String(s("1"))), (s("a"), Bson::String(s("2")))]);
    assert_eq!(
        decode_plain(&t, false, &b),
        Ok(Value::Dictionary(vec![
            (s("z"), Value::String(s("1"))),
            (s("a"), Value::String(s("2"))),
        ]))
    );
    let bad = Bson::Document(vec![(s("k"), Bson::Int32(1))]);
    assert_eq!(
        decode_plain(&t, false, &bad),
        Err(DbError::RecordDecodingError {
            model: s("User"),
            path: KeyPath { items: vec![PathItem::Key(s("k"))] },
            expected: s("string"),
        })
    );
}

#[test]
fn codec_round_trip_on_values() {
    let t = FieldType::Array { inner: Box::new(FieldType::Date), optional: false };
    let b = encode(&t, Value::Array(vec![Value::Date(-3), Value::Date(19_000)])).unwrap();
    assert_eq!(decode_plain(&t, false, &b), Ok(Value::Array(vec![Value::Date(-3), Value::Date(19_000)])));
    let b = encode(&FieldType::Int64, Value::I64(i64::MIN)).unwrap();
    assert_eq!(decode_plain(&FieldType::Int64, false, &b), Ok(Value::I64(i64::MIN)));
}

#[test]
fn decode_reports_first_failing_element() {
    let t = FieldType::Array { inner: Box::new(FieldType::Bool), optional: false };
    let b = Bson::Array(vec![Bson::Boolean(true), Bson::Int32(0), Bson::String(s("no"))]);
    assert_eq!(
        decode_plain(&t, false, &b),
        Err(DbError::RecordDecodingError {
            model: s("User"),
            path: KeyPath { items: vec![PathItem::Index(1)] },
            expected: s("bool"),
        })
    );
}

#[test]
fn enum_round_trip_inside_arrays() {
    let color = FieldType::EnumVariant { path: vec![s("Color")], members: vec![s("red"), s("blue")] };
    let t = FieldType::Array { inner: Box::new(color), optional: false };
    let v = Value::Array(vec![Value::EnumVariant(s("red")), Value::EnumVariant(s("blue"))]);
    let b = encode(&t, v).unwrap();
    assert_eq!(b, Bson::Array(vec![Bson::String(s("red")), Bson::String(s("blue"))]));
    assert_eq!(
        decode_plain(&t, false, &b),
        Ok(Value::Array(vec![Value::EnumVariant(s("red")), Value::EnumVariant(s("blue"))]))
    );
}
