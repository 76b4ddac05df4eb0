use teo_mongodb_connector::error::{DbError, KeyPath, PathItem};
use teo_mongodb_connector::model::{Field, Model};
use teo_mongodb_connector::translate::{handle_write_error, DriverErrorKind, WriteFailureKind};
use teo_mongodb_connector::value::FieldType;

fn s(x: &str) -> String {
    x.to_string()
}

fn model() -> Model {
    Model {
        name: s("User"),
        table_name: s("users"),
        fields: vec![
            Field { name: s("email"), column_name: s("email"), field_type: FieldType::String, optional: false },
            Field { name: s("nickName"), column_name: s("nick_name"), field_type: FieldType::String, optional: true },
        ],
        properties: vec![],
        relations: vec![],
        indexes: vec![],
        auto_keys: vec![],
    }
}

fn at(items: Vec<PathItem>) -> KeyPath {
    KeyPath { items }
}

fn write_error(code: i32, message: &str) -> DriverErrorKind {
    DriverErrorKind::Write(WriteFailureKind::WriteError { code, message: s(message) })
}

#[test]
fn duplicate_unique() {
    let msg = "E11000 duplicate key error collection: db.users index: email_1 dup key: { email: \"a@b\" }";
    let e = handle_write_error(write_error(11000, msg), &model(), at(vec![PathItem::Key(s("create"))]));
    match e {
        DbError::UniqueValueDuplicated { path, message } => {
            assert_eq!(path, at(vec![PathItem::Key(s("create")), PathItem::Key(s("email"))]));
            assert_eq!(message, "{ email: \"a@b\" }");
            assert!(message.contains("a@b"));
        }
        other => panic!("unexpected {:?}", other),
    }
}

#[test]
fn duplicate_names_the_runtime_field() {
    let msg = "E11000 dup key: { nick_name: \"z\" }";
    let e = handle_write_error(write_error(11000, msg), &model(), KeyPath::new());
    assert_eq!(
        e,
        DbError::UniqueValueDuplicated {
            path: at(vec![PathItem::Key(s("nickName"))]),
            message: s("{ nick_name: \"z\" }"),
        }
    );
}

#[test]
fn duplicate_on_unknown_column_keeps_path() {
    let msg = "E11000 dup key: { other: 1 }";
    let e = handle_write_error(write_error(11000, msg), &model(), KeyPath::new());
    assert_eq!(e, DbError::UniqueValueDuplicated { path: KeyPath::new(), message: s("{ other: 1 }") });
}

#[test]
fn duplicate_without_key_text() {
    let e = handle_write_error(write_error(11000, "E11000 duplicate"), &model(), KeyPath::new());
    assert_eq!(e, DbError::UnknownDatabaseWriteError { path: KeyPath::new(), message: s("E11000 duplicate") });
}

#[test]
fn other_write_errors() {
    let p = || at(vec![PathItem::Index(2)]);
    assert_eq!(
        handle_write_error(write_error(121, "validation failed"), &model(), p()),
        DbError::UnknownDatabaseWriteError { path: p(), message: s("validation failed") }
    );
    assert_eq!(
        handle_write_error(
            DriverErrorKind::Write(WriteFailureKind::WriteConcernError { message: s("concern") }),
            &model(),
            p()
        ),
        DbError::UnknownDatabaseWriteError { path: p(), message: s("concern") }
    );
    assert_eq!(
        handle_write_error(DriverErrorKind::Write(WriteFailureKind::Other), &model(), p()),
        DbError::UnknownDatabaseWriteError { path: p(), message: s("unknown write failure") }
    );
    assert_eq!(
        handle_write_error(DriverErrorKind::Transaction { message: s("aborted") }, &model(), p()),
        DbError::UnknownDatabaseWriteError { path: p(), message: s("aborted") }
    );
    assert_eq!(
        handle_write_error(DriverErrorKind::SessionsNotSupported, &model(), p()),
        DbError::UnknownDatabaseWriteError { path: p(), message: s("session is not supported") }
    );
    assert_eq!(
        handle_write_error(DriverErrorKind::Other { description: s("Io") }, &model(), p()),
        DbError::UnknownDatabaseWriteError { path: p(), message: s("unknown write: Io") }
    );
}
