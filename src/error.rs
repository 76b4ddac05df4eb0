//! Key paths that localise errors, and the error taxonomy of the connector.
use vstd::prelude::*;

verus! {

/// One step of a key path: a dictionary key or an array index.
#[derive(Debug, PartialEq)]
pub enum PathItem {
    Key(String),
    Index(usize),
}

/// An append-only sequence of keys and indices that localises an error
/// inside a nested value.
#[derive(Debug, PartialEq)]
pub struct KeyPath {
    pub items: Vec<PathItem>,
}

/// A copy of a path step.
pub fn copy_path_item(p: &PathItem) -> (r: PathItem)
    ensures
        r == *p,
{
    match p {
        PathItem::Key(k) => PathItem::Key(k.clone()),
        PathItem::Index(i) => PathItem::Index(*i),
    }
}

impl KeyPath {
    /// The empty path.
    pub fn new() -> (r: KeyPath)
        ensures
            r.items@ == Seq::<PathItem>::empty(),
    {
        KeyPath { items: Vec::new() }
    }

    /// A copy of this path.
    pub fn copy(&self) -> (r: KeyPath)
        ensures
            r.items@ == self.items@,
    {
        let mut items: Vec<PathItem> = Vec::new();
        let mut i: usize = 0;
        while i < self.items.len()
            invariant
                i <= self.items@.len(),
                items@ == self.items@.subrange(0, i as int),
            decreases self.items@.len() - i,
        {
            items.push(copy_path_item(&self.items[i]));
            i = i + 1;
        }
        assert(items@ == self.items@.subrange(0, self.items@.len() as int));
        KeyPath { items }
    }

    /// This path extended by one step.
    pub fn appended(&self, item: PathItem) -> (r: KeyPath)
        ensures
            r.items@ == self.items@.push(item),
    {
        let mut r = self.copy();
        r.items.push(item);
        r
    }

    /// This path extended by a dictionary key.
    pub fn with_key(&self, key: &String) -> (r: KeyPath)
        ensures
            r.items@ == self.items@.push(PathItem::Key(*key)),
    {
        self.appended(PathItem::Key(key.clone()))
    }

    /// This path extended by an array index.
    pub fn with_index(&self, index: usize) -> (r: KeyPath)
        ensures
            r.items@ == self.items@.push(PathItem::Index(index)),
    {
        self.appended(PathItem::Index(index))
    }
}

/// The errors that the connector surfaces to the runtime. Every variant but
/// `Runtime` carries the key path that localises the failure.
#[derive(Debug, PartialEq)]
pub enum DbError {
    UniqueValueDuplicated { path: KeyPath, message: String },
    UnknownDatabaseWriteError { path: KeyPath, message: String },
    UnknownDatabaseFindError { path: KeyPath, message: String },
    UnknownDatabaseDeleteError { path: KeyPath, message: String },
    RecordDecodingError { model: String, path: KeyPath, expected: String },
    ObjectIsNotSavedThusCantBeDeleted { path: KeyPath },
    Runtime { message: String },
}

} // verus!
