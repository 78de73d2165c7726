//! Resolution engine for HOCON configuration documents.
//!
//! A syntax layer turns a document into an ordered list of flat
//! path/value assignments; this crate folds that list into a single
//! value tree, resolving `${path}` substitutions, concatenations,
//! `+=` appends and included sub-documents, under a lenient mode that
//! embeds typed errors in the tree and a strict mode that aborts on
//! the first error.

pub mod error;
pub mod strings;
pub mod value;
pub mod node;
pub mod substitute;
pub mod merge;
pub mod hocon;
pub mod finalize;
pub mod loader;
pub mod laws;

pub use error::Error;
pub use hocon::Hocon;
pub use loader::{HoconInternal, HoconLoader, Include};
pub use value::HoconValue;
