//! Indexing, identity and presentation rules of a newsletter archive.
pub mod text;
pub mod frontmatter;
pub mod scan;
pub mod state;
pub mod search;
pub mod emails;
pub mod schema;
pub mod index;
pub mod laws;
pub mod walk;
