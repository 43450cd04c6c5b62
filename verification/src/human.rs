//! The human-readable encoding.
pub mod api;
pub mod de;
pub mod generated;
pub mod laws;
pub mod lex;
pub mod ser;
pub mod strings;
pub mod test_value;
pub mod value;
