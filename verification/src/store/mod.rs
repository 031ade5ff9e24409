//! What the library knows of the key-value stores that hold the documents.

pub mod documents_fields;
