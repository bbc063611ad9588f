//! A declarative binding engine between records and XML events.
pub mod codec;
pub mod document;
pub mod event;
pub mod laws;
pub mod parse;
pub mod reader;
pub mod schema;
pub mod styles;
pub mod validate;
pub mod variant;
pub mod writer;
