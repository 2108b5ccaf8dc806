//! A single-user task tracker: a flat collection of tasks, persisted as
//! pretty-printed structured text, with add / remove / update operations and
//! queries by project, status, priority, or free-text search.
//!
//! The library holds the data model, the text codec the store round-trips
//! through, and the pure query/update engine. File reading and writing, and
//! command-line parsing, live outside it.

pub mod engine;
pub mod errors;
pub mod laws;
pub mod num;
pub mod store;
pub mod strutil;
pub mod task;

pub use errors::StoreError;
pub use task::Task;
pub use task::TaskView;
