//! Core of a MongoDB connector for an ORM-style runtime: a type-directed codec
//! between runtime values and BSON, the write-path planners, document
//! materialization, index reconciliation, error translation and the
//! transaction lifecycle.
pub mod codec;
pub mod error;
pub mod materialize;
pub mod migrate;
pub mod model;
pub mod query;
pub mod state;
pub mod translate;
pub mod value;
pub mod write;
