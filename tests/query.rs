use teo_mongodb_connector::error::{DbError, KeyPath, PathItem};
use teo_mongodb_connector::model::{Field, Model};
use teo_mongodb_connector::query::{
    aggregate_row, check_deletable, count_from_documents, empty_aggregate, has_negative_take,
    order_rows, raw_sql_error, rename_select,
};
use teo_mongodb_connector::value::{Bson, FieldType, Value};

fn s(x: &str) -> String {
    x.to_string()
}

fn model() -> Model {
    Model {
        name: s("User"),
        table_name: s("users"),
        fields: vec![
            Field { name: s("age"), column_name: s("age"), field_type: FieldType::Int, optional: false },
            Field { name: s("city"), column_name: s("city"), field_type: FieldType::String, optional: false },
        ],
        properties: vec![],
        relations: vec![],
        indexes: vec![],
        auto_keys: vec![],
    }
}

#[test]
fn aggregate_zero_rows() {
    let finder = vec![
        (s("_count"), Value::Dictionary(vec![(s("_all"), Value::Bool(true))])),
        (s("_avg"), Value::Dictionary(vec![(s("age"), Value::Bool(true))])),
    ];
    assert_eq!(
        empty_aggregate(&finder),
        vec![
            (s("_count"), Value::Dictionary(vec![(s("_all"), Value::I32(0))])),
            (s("_avg"), Value::Dictionary(vec![(s("age"), Value::Null)])),
        ]
    );
}

#[test]
fn negative_take_reversal() {
    let finder = vec![(s("take"), Value::I64(-3)), (s("orderBy"), Value::Null)];
    let reverse = has_negative_take(&finder);
    assert!(reverse);
    let fetched: Vec<i32> = vec![8, 9, 10];
    assert_eq!(order_rows(fetched, reverse), vec![10, 9, 8]);
}

#[test]
fn positive_take_keeps_order() {
    assert!(!has_negative_take(&vec![(s("take"), Value::I32(3))]));
    assert!(!has_negative_take(&vec![(s("skip"), Value::I32(-3))]));
    assert!(has_negative_take(&vec![(s("take"), Value::I32(-1))]));
    assert_eq!(order_rows(vec![1, 2, 3], false), vec![1, 2, 3]);
}

#[test]
fn aggregate_rows_decode_buckets_and_groups() {
    let row = vec![
        (s("_id"), Bson::Null),
        (
            s("_avg"),
            Bson::Document(vec![
                (s("age"), Bson::Double(2.5f64.to_bits())),
                (s("n"), Bson::Int64(4)),
                (s("m"), Bson::Int32(2)),
                (s("z"), Bson::Null),
                (s("skip"), Bson::String(s("x"))),
            ]),
        ),
        (s("city"), Bson::String(s("Oslo"))),
        (s("age"), Bson::Null),
    ];
    assert_eq!(
        aggregate_row(&model(), &row),
        Ok(vec![
            (
                s("_avg"),
                Value::Dictionary(vec![
                    (s("age"), Value::F64(2.5f64.to_bits())),
                    (s("n"), Value::I64(4)),
                    (s("m"), Value::I32(2)),
                    (s("z"), Value::Null),
                ]),
            ),
            (s("city"), Value::String(s("Oslo"))),
            (s("age"), Value::Null),
        ])
    );
}

#[test]
fn aggregate_row_group_mismatch_fails() {
    let row = vec![(s("age"), Bson::String(s("x")))];
    let r = aggregate_row(&model(), &row);
    assert!(matches!(r, Err(DbError::RecordDecodingError { ref expected, .. }) if expected == "int 32"));
}

#[test]
fn counts() {
    assert_eq!(count_from_documents(&vec![]), 0);
    assert_eq!(count_from_documents(&vec![vec![(s("count"), Bson::Int32(7))]]), 7);
    assert_eq!(
        count_from_documents(&vec![vec![(s("x"), Bson::Null), (s("count"), Bson::Int64(1 << 40))]]),
        1 << 40
    );
}

#[test]
fn select_becomes_count() {
    let finder = vec![
        (s("where"), Value::Null),
        (s("select"), Value::Dictionary(vec![(s("age"), Value::Bool(true))])),
    ];
    assert_eq!(
        rename_select(finder),
        vec![
            (s("where"), Value::Null),
            (s("_count"), Value::Dictionary(vec![(s("age"), Value::Bool(true))])),
        ]
    );
}

#[test]
fn raw_sql_is_refused() {
    assert_eq!(raw_sql_error(), DbError::Runtime { message: s("do not run raw sql on MongoDB database") });
}

#[test]
fn unsaved_object_cannot_be_deleted() {
    let p = KeyPath { items: vec![PathItem::Key(s("delete"))] };
    assert_eq!(
        check_deletable(true, p),
        Err(DbError::ObjectIsNotSavedThusCantBeDeleted {
            path: KeyPath { items: vec![PathItem::Key(s("delete"))] },
        })
    );
    assert_eq!(check_deletable(false, KeyPath::new()), Ok(()));
}
