//! A mutable, spec-conformant URL value with verified parsing, serialization,
//! component accessors, and ordered query-pair operations.
//!
//! A [`url::Url`] is created by parsing an absolute URL string. It can be read
//! and mutated through scalar accessors (scheme, domain, path, query,
//! fragment/hash) and through ordered multimap operations over the query
//! string (append, set, delete, get, get-all). Serialization back to a string
//! (`href`) is canonical: serializing, re-parsing and serializing again yields
//! the same string.

pub mod bytes;
pub mod host;
pub mod model;
pub mod pairs;
pub mod laws;
pub mod parse;
pub mod url;
