pub mod closure;
pub mod database;
pub mod interner;
pub mod reach;
pub mod relation;

pub use closure::{naive_closure, semi_naive_closure, worklist_closure};
pub use database::{closure, closure_tuple, closure_with, ClosureStrategy, Database, DatabaseIterator, RecordView};
pub use interner::StringInterner;
pub use relation::{EdgeRecord, EdgeRelation};
