//! Directory tree synchronization engine for a markdown note browser.
//!
//! The library models a filesystem subtree as plain data, classifies entries
//! into folders and markdown files, orders siblings with a natural order that
//! understands trailing `"(n)"` duplicate markers, resolves naming conflicts
//! for creation, scans a root into flat or event-stream form, and applies
//! mutation commands (create folder, create markdown file, delete node) to
//! the model. Every operation carries a contract; the unverified adapter
//! around the library performs the actual disk I/O and feeds the results in
//! as values.

pub mod commands;
pub mod file_node;
pub mod fs_model;
pub mod order;
pub mod resolver;
pub mod scanner;
pub mod text;
