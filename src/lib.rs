//! Reconciles named code snippets across three places: tagged regions in source files,
//! inclusions in LaTeX documents, and snippet files already extracted to a target
//! directory. The scanners read text; the store merges every sighting into one record
//! per name; the extraction policy decides which snippet files to write and how.
pub mod extract;
pub mod inclusion;
pub mod reconcile;
pub mod snippet;
pub mod store;
pub mod tags;
pub mod text;
