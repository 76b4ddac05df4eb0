//! Translation of driver write errors into the connector's error taxonomy.
use vstd::prelude::*;
use crate::error::{DbError, KeyPath, PathItem};
use crate::model::{Model, is_field_with_column};

verus! {

/// The kind of a failed write, as the driver reports it.
#[derive(Debug, PartialEq)]
pub enum WriteFailureKind {
    WriteError { code: i32, message: String },
    WriteConcernError { message: String },
    Other,
}

/// The kind of a driver error; `Other` carries the kind's debug text.
#[derive(Debug, PartialEq)]
pub enum DriverErrorKind {
    Write(WriteFailureKind),
    Transaction { message: String },
    SessionsNotSupported,
    Other { description: String },
}

/// The driver's error code for a duplicate key.
pub const DUPLICATE_KEY_CODE: i32 = 11000;

/// The text that introduces the offending key in a duplicate-key message.
pub open spec fn dup_key_prefix() -> Seq<char> {
    "dup key: "@
}

/// `pattern` occurs in `s` at position `i`.
pub open spec fn occurs_at(s: Seq<char>, pattern: Seq<char>, i: int) -> bool {
    0 <= i && i + pattern.len() <= s.len() && s.subrange(i, i + pattern.len()) == pattern
}

/// No character of `s` in `[from, to)` is a line feed.
pub open spec fn no_newline(s: Seq<char>, from: int, to: int) -> bool {
    forall|k: int| from <= k < to ==> s[k] != '\n'
}

/// `dup key: (.+)` matches `s` starting at `i`.
pub open spec fn full_key_match_at(s: Seq<char>, i: int) -> bool {
    let p = dup_key_prefix();
    occurs_at(s, p, i) && i + p.len() < s.len() && s[i + p.len()] != '\n'
}

/// `c` is the group of the leftmost match of `dup key: (.+)` in `s` (the
/// rest of the line after the prefix), or `None` when nothing matches.
pub open spec fn is_full_key_capture(s: Seq<char>, c: Option<Seq<char>>) -> bool {
    let n = dup_key_prefix().len();
    match c {
        None => forall|i: int| !full_key_match_at(s, i),
        Some(g) => exists|i: int, e: int|
            #![trigger full_key_match_at(s, i), s.subrange(i + n, e)]
            full_key_match_at(s, i) && (forall|k: int| 0 <= k < i ==> !full_key_match_at(s, k))
                && i + n < e <= s.len() && (e == s.len() || s[e] == '\n') && no_newline(
                s,
                i + n,
                e,
            ) && g == s.subrange(i + n, e),
    }
}

/// The text that introduces the offending column in a duplicate-key message.
pub open spec fn dup_column_prefix() -> Seq<char> {
    "dup key: { "@
}

/// `dup key: \{ (.+?):` matches `s` starting at `i` with its group ending
/// before the colon at `j`.
pub open spec fn column_match(s: Seq<char>, i: int, j: int) -> bool {
    let n = dup_column_prefix().len();
    occurs_at(s, dup_column_prefix(), i) && i + n < j < s.len() && s[j] == ':' && no_newline(
        s,
        i + n,
        j,
    )
}

/// `dup key: \{ (.+?):` matches `s` starting at `i`.
pub open spec fn column_match_at(s: Seq<char>, i: int) -> bool {
    exists|j: int| #[trigger] column_match(s, i, j)
}

/// `c` is the group of the leftmost match of `dup key: \{ (.+?):` in `s`
/// (the shortest text after the prefix that a colon follows), or `None`
/// when nothing matches.
pub open spec fn is_column_capture(s: Seq<char>, c: Option<Seq<char>>) -> bool {
    let n = dup_column_prefix().len();
    match c {
        None => forall|i: int| !column_match_at(s, i),
        Some(g) => exists|i: int, j: int|
            #[trigger] column_match(s, i, j) && (forall|k: int| 0 <= k < i ==> !column_match_at(s, k))
                && (forall|k: int| i + n < k < j ==> !column_match(s, i, k)) && g == s.subrange(
                i + n,
                j,
            ),
    }
}

/// The offending key of a duplicate-key message.
///
/// Relies on `regex::Regex::new` and `Regex::captures` (leftmost-first
/// matching, `.` matching any character but a line feed, `+` greedy): the
/// first group of the leftmost match of `dup key: (.+)`.
#[verifier::external_body]
fn capture_full_key(message: &str) -> (r: Option<String>)
    ensures
        is_full_key_capture(
            message@,
            match r {
                Some(c) => Some(c@),
                None => None,
            },
        ),
{
    let re = regex::Regex::new("dup key: (.+)").unwrap();
    match re.captures(message) {
        Some(caps) => match caps.get(1) {
            Some(m) => Some(m.as_str().to_string()),
            None => None,
        },
        None => None,
    }
}

/// The offending column of a duplicate-key message.
///
/// Relies on `regex::Regex::new` and `Regex::captures` (leftmost-first
/// matching, `.` matching any character but a line feed, `+?` lazy): the
/// first group of the leftmost match of `dup key: \{ (.+?):`.
#[verifier::external_body]
fn capture_column(message: &str) -> (r: Option<String>)
    ensures
        is_column_capture(
            message@,
            match r {
                Some(c) => Some(c@),
                None => None,
            },
        ),
{
    let re = regex::Regex::new("dup key: \\{ (.+?):").unwrap();
    match re.captures(message) {
        Some(caps) => match caps.get(1) {
            Some(m) => Some(m.as_str().to_string()),
            None => None,
        },
        None => None,
    }
}

/// `e` is an unknown-write error at `path` with message `message`.
pub open spec fn is_write_error(e: DbError, path: Seq<PathItem>, message: Seq<char>) -> bool {
    e matches DbError::UnknownDatabaseWriteError { path: p, message: x } && p.items@ == path && x@
        == message
}

/// `e` is a duplicate-value error at `path` with message `message`.
pub open spec fn is_duplicate_error(e: DbError, path: Seq<PathItem>, message: Seq<char>) -> bool {
    e matches DbError::UniqueValueDuplicated { path: p, message: x } && p.items@ == path && x@
        == message
}

/// `e` is the error for a duplicate key reported by `message` on model `m`
/// at `path`: the offending key expression as message, at `path` extended
/// by the runtime name of the field stored in the offending column where
/// the model has one. A message that does not name its key is reported as
/// it stands, as an unknown write error.
pub open spec fn duplicate_translated(m: Model, message: Seq<char>, path: Seq<PathItem>, e: DbError) -> bool {
    if exists|full: Seq<char>, col: Seq<char>|
        is_full_key_capture(message, Some(full)) && is_column_capture(message, Some(col)) {
        forall|full: Seq<char>, col: Seq<char>|
            #![trigger is_full_key_capture(message, Some(full)), is_column_capture(message, Some(col))]
            is_full_key_capture(message, Some(full)) && is_column_capture(message, Some(col))
                ==> (forall|f: Option<usize>|
                #[trigger] is_field_with_column(m.fields@, col, f) ==> match f {
                    Some(j) => is_duplicate_error(
                        e,
                        path.push(PathItem::Key(m.fields@[j as int].name)),
                        full,
                    ),
                    None => is_duplicate_error(e, path, full),
                })
    } else {
        is_write_error(e, path, message)
    }
}

/// `e` is the translation of the driver error `kind` for an object of
/// model `m`, at `path`.
pub open spec fn translated(kind: DriverErrorKind, m: Model, path: Seq<PathItem>, e: DbError) -> bool {
    match kind {
        DriverErrorKind::Write(WriteFailureKind::WriteError { code, message }) => if code
            == DUPLICATE_KEY_CODE {
            duplicate_translated(m, message@, path, e)
        } else {
            is_write_error(e, path, message@)
        },
        DriverErrorKind::Write(WriteFailureKind::WriteConcernError { message }) => is_write_error(
            e,
            path,
            message@,
        ),
        DriverErrorKind::Write(WriteFailureKind::Other) => is_write_error(
            e,
            path,
            "unknown write failure"@,
        ),
        DriverErrorKind::Transaction { message } => is_write_error(e, path, message@),
        DriverErrorKind::SessionsNotSupported => is_write_error(
            e,
            path,
            "session is not supported"@,
        ),
        DriverErrorKind::Other { description } => is_write_error(
            e,
            path,
            "unknown write: "@ + description@,
        ),
    }
}

proof fn lemma_capture_unique_full(s: Seq<char>, a: Seq<char>, b: Seq<char>)
    requires
        is_full_key_capture(s, Some(a)),
        is_full_key_capture(s, Some(b)),
    ensures
        a == b,
{
    let n = dup_key_prefix().len();
    let (i1, e1) = choose|i: int, e: int|
        #![trigger full_key_match_at(s, i), s.subrange(i + n, e)]
        full_key_match_at(s, i) && (forall|k: int| 0 <= k < i ==> !full_key_match_at(s, k))
            && i + n < e <= s.len() && (e == s.len() || s[e] == '\n') && no_newline(s, i + n, e)
            && a == s.subrange(i + n, e);
    let (i2, e2) = choose|i: int, e: int|
        #![trigger full_key_match_at(s, i), s.subrange(i + n, e)]
        full_key_match_at(s, i) && (forall|k: int| 0 <= k < i ==> !full_key_match_at(s, k))
            && i + n < e <= s.len() && (e == s.len() || s[e] == '\n') && no_newline(s, i + n, e)
            && b == s.subrange(i + n, e);
    assert(i1 == i2) by {
        if i1 < i2 {
            assert(!full_key_match_at(s, i1));
        }
        if i2 < i1 {
            assert(!full_key_match_at(s, i2));
        }
    }
    assert(e1 == e2) by {
        if e1 < e2 {
            assert(s[e1] != '\n');
        }
        if e2 < e1 {
            assert(s[e2] != '\n');
        }
    }
}

proof fn lemma_capture_unique_column(s: Seq<char>, a: Seq<char>, b: Seq<char>)
    requires
        is_column_capture(s, Some(a)),
        is_column_capture(s, Some(b)),
    ensures
        a == b,
{
    let n = dup_column_prefix().len();
    let (i1, j1) = choose|i: int, j: int|
        #[trigger] column_match(s, i, j) && (forall|k: int| 0 <= k < i ==> !column_match_at(s, k))
            && (forall|k: int| i + n < k < j ==> !column_match(s, i, k)) && a == s.subrange(
            i + n,
            j,
        );
    let (i2, j2) = choose|i: int, j: int|
        #[trigger] column_match(s, i, j) && (forall|k: int| 0 <= k < i ==> !column_match_at(s, k))
            && (forall|k: int| i + n < k < j ==> !column_match(s, i, k)) && b == s.subrange(
            i + n,
            j,
        );
    assert(i1 == i2) by {
        if i1 < i2 {
            assert(column_match_at(s, i1));
        }
        if i2 < i1 {
            assert(column_match_at(s, i2));
        }
    }
    assert(j1 == j2) by {
        if j1 < j2 {
            assert(column_match(s, i1, j1));
        }
        if j2 < j1 {
            assert(column_match(s, i1, j2));
        }
    }
}

proof fn lemma_capture_exclusive(s: Seq<char>, a: Seq<char>, b: Seq<char>)
    ensures
        is_full_key_capture(s, None) ==> !is_full_key_capture(s, Some(a)),
        is_column_capture(s, None) ==> !is_column_capture(s, Some(b)),
{
    let n = dup_key_prefix().len();
    if is_full_key_capture(s, None) && is_full_key_capture(s, Some(a)) {
        let (i, e) = choose|i: int, e: int|
            #![trigger full_key_match_at(s, i), s.subrange(i + n, e)]
            full_key_match_at(s, i) && (forall|k: int| 0 <= k < i ==> !full_key_match_at(s, k))
                && i + n < e <= s.len() && (e == s.len() || s[e] == '\n') && no_newline(s, i + n, e)
                && a == s.subrange(i + n, e);
        assert(!full_key_match_at(s, i));
    }
    let m = dup_column_prefix().len();
    if is_column_capture(s, None) && is_column_capture(s, Some(b)) {
        let (i, j) = choose|i: int, j: int|
            #[trigger] column_match(s, i, j) && (forall|k: int| 0 <= k < i ==> !column_match_at(s, k))
                && (forall|k: int| i + m < k < j ==> !column_match(s, i, k)) && b == s.subrange(
                i + m,
                j,
            );
        assert(column_match_at(s, i));
    }
}

/// Translates a driver error for an object of model `m` at `path`.
pub fn handle_write_error(kind: DriverErrorKind, m: &Model, path: KeyPath) -> (e: DbError)
    ensures
        translated(kind, *m, path.items@, e),
{
    match kind {
        DriverErrorKind::Write(WriteFailureKind::WriteError { code, message }) => {
            if code == DUPLICATE_KEY_CODE {
                let full = capture_full_key(message.as_str());
                let col = capture_column(message.as_str());
                match (full, col) {
                    (Some(full), Some(col)) => {
                        let f = m.field_with_column_name(&col);
                        proof {
                            assert(is_full_key_capture(message@, Some(full@)) && is_column_capture(
                                message@,
                                Some(col@),
                            ));
                            assert forall|a: Seq<char>, c: Seq<char>|
                                is_full_key_capture(message@, Some(a)) && is_column_capture(
                                    message@,
                                    Some(c),
                                ) implies a == full@ && c == col@ by {
                                lemma_capture_unique_full(message@, a, full@);
                                lemma_capture_unique_column(message@, c, col@);
                            }
                            assert forall|c: Seq<char>, g: Option<usize>|
                                c == col@ && #[trigger] is_field_with_column(m.fields@, c, g) implies g
                                == f by {
                                crate::model::lemma_column_lookup_unique(m.fields@, c, g, f);
                            }
                        }
                        match f {
                            Some(j) => DbError::UniqueValueDuplicated {
                                path: path.appended(PathItem::Key(m.fields[j].name.clone())),
                                message: full,
                            },
                            None => DbError::UniqueValueDuplicated { path, message: full },
                        }
                    },
                    (full, col) => {
                        proof {
                            assert forall|a: Seq<char>, c: Seq<char>|
                                !(is_full_key_capture(message@, Some(a)) && is_column_capture(
                                    message@,
                                    Some(c),
                                )) by {
                                lemma_capture_exclusive(message@, a, c);
                            }
                        }
                        DbError::UnknownDatabaseWriteError { path, message }
                    },
                }
            } else {
                DbError::UnknownDatabaseWriteError { path, message }
            }
        },
        DriverErrorKind::Write(WriteFailureKind::WriteConcernError { message }) => {
            DbError::UnknownDatabaseWriteError { path, message }
        },
        DriverErrorKind::Write(WriteFailureKind::Other) => DbError::UnknownDatabaseWriteError {
            path,
            message: String::from_str("unknown write failure"),
        },
        DriverErrorKind::Transaction { message } => DbError::UnknownDatabaseWriteError {
            path,
            message,
        },
        DriverErrorKind::SessionsNotSupported => DbError::UnknownDatabaseWriteError {
            path,
            message: String::from_str("session is not supported"),
        },
        DriverErrorKind::Other { description } => {
            let mut message = String::from_str("unknown write: ");
            message.append(description.as_str());
            DbError::UnknownDatabaseWriteError { path, message }
        },
    }
}

} // verus!
